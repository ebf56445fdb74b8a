//! Exact minimum-press solver for toggle machines: Gaussian elimination over
//! GF(2), then a search over the free variables.

use vstd::prelude::*;
use super::machine::{Machine, buttons_of, lists, touches, toggled, lights_match, presses};

verus! {

/// Parity of `row[j] && x[j]` over the first `n` columns.
pub open spec fn row_eval(row: Seq<bool>, x: Seq<bool>, n: int) -> bool
    decreases n,
{
    if n <= 0 {
        false
    } else {
        row_eval(row, x, n - 1) != (row[n - 1] && x[n - 1])
    }
}

/// Every row equation `coef[r] . x == rhs[r]` holds.
pub open spec fn rows_hold(coef: Seq<Vec<bool>>, rhs: Seq<bool>, x: Seq<bool>, nv: int) -> bool {
    forall|r: int| 0 <= r < coef.len() ==> #[trigger] row_eval(coef[r]@, x, nv) == rhs[r]
}

/// Both systems have the same solutions of length `nv`.
#[verifier::opaque]
pub open spec fn equivalent(c1: Seq<Vec<bool>>, h1: Seq<bool>, c2: Seq<Vec<bool>>, h2: Seq<bool>, nv: int) -> bool {
    forall|x: Seq<bool>|
        x.len() == nv ==> (#[trigger] rows_hold(c1, h1, x, nv) == rows_hold(c2, h2, x, nv))
}

/// Reduced row echelon form: row `i` owns pivot column `pivots[i]`, which is
/// zero in every other row, and the rows past the pivots have no coefficient.
pub open spec fn reduced(coef: Seq<Vec<bool>>, nv: int, pivots: Seq<usize>) -> bool {
    &&& pivots.len() <= coef.len()
    &&& forall|i: int| 0 <= i < pivots.len() ==> pivots[i] < nv
    &&& forall|i: int, r: int|
        #![trigger coef[r]@[pivots[i] as int]]
        0 <= i < pivots.len() && 0 <= r < coef.len() ==> coef[r]@[pivots[i] as int] == (r == i)
    &&& forall|r: int, j: int|
        #![trigger coef[r]@[j]]
        pivots.len() <= r < coef.len() && 0 <= j < nv ==> !coef[r]@[j]
}

proof fn lemma_eval_xor(a: Seq<bool>, b: Seq<bool>, s: Seq<bool>, x: Seq<bool>, n: int)
    requires
        forall|j: int| 0 <= j < n ==> s[j] == (a[j] != b[j]),
    ensures
        row_eval(s, x, n) == (row_eval(a, x, n) != row_eval(b, x, n)),
    decreases n,
{
    if n > 0 {
        lemma_eval_xor(a, b, s, x, n - 1);
    }
}

proof fn lemma_eval_agree(row: Seq<bool>, x: Seq<bool>, y: Seq<bool>, n: int)
    requires
        forall|j: int| 0 <= j < n && row[j] ==> x[j] == y[j],
    ensures
        row_eval(row, x, n) == row_eval(row, y, n),
    decreases n,
{
    if n > 0 {
        lemma_eval_agree(row, x, y, n - 1);
    }
}

proof fn lemma_eval_zero(row: Seq<bool>, x: Seq<bool>, n: int)
    requires
        forall|j: int| 0 <= j < n ==> !row[j],
    ensures
        !row_eval(row, x, n),
    decreases n,
{
    if n > 0 {
        lemma_eval_zero(row, x, n - 1);
    }
}

proof fn lemma_eval_flip(row: Seq<bool>, x: Seq<bool>, p: int, v: bool, n: int)
    requires
        0 <= p < n <= x.len(),
        row[p],
    ensures
        row_eval(row, x.update(p, v), n) == (row_eval(row, x, n) != (x[p] != v)),
    decreases n,
{
    if n - 1 == p {
        lemma_eval_agree(row, x, x.update(p, v), n - 1);
    } else {
        lemma_eval_flip(row, x, p, v, n - 1);
    }
}

proof fn lemma_eval_incidence(row: Seq<bool>, buttons: Seq<Seq<nat>>, x: Seq<bool>, c: int, n: int)
    requires
        forall|j: int| 0 <= j < n ==> row[j] == touches(buttons, j, c),
    ensures
        row_eval(row, x, n) == toggled(buttons, x, c, n),
    decreases n,
{
    if n > 0 {
        lemma_eval_incidence(row, buttons, x, c, n - 1);
    }
}

/// Adding row `p` to row `o` keeps the solutions.
proof fn lemma_xor_rows(
    coef: Seq<Vec<bool>>,
    rhs: Seq<bool>,
    o: int,
    p: int,
    v: Vec<bool>,
    x: Seq<bool>,
    nv: int,
)
    requires
        0 <= o < coef.len(),
        0 <= p < coef.len(),
        o != p,
        rhs.len() == coef.len(),
        forall|j: int| 0 <= j < nv ==> v@[j] == (coef[o]@[j] != coef[p]@[j]),
    ensures
        rows_hold(coef.update(o, v), rhs.update(o, rhs[o] != rhs[p]), x, nv) == rows_hold(
            coef,
            rhs,
            x,
            nv,
        ),
{
    let c2 = coef.update(o, v);
    let h2 = rhs.update(o, rhs[o] != rhs[p]);
    lemma_eval_xor(coef[o]@, coef[p]@, v@, x, nv);
    if rows_hold(coef, rhs, x, nv) {
        assert forall|r: int| 0 <= r < c2.len() implies #[trigger] row_eval(c2[r]@, x, nv)
            == h2[r] by {
            assert(row_eval(coef[r]@, x, nv) == rhs[r]);
            assert(row_eval(coef[p]@, x, nv) == rhs[p]);
        }
    }
    if rows_hold(c2, h2, x, nv) {
        assert forall|r: int| 0 <= r < coef.len() implies #[trigger] row_eval(coef[r]@, x, nv)
            == rhs[r] by {
            assert(row_eval(c2[r]@, x, nv) == h2[r]);
            assert(row_eval(c2[p]@, x, nv) == h2[p]);
        }
    }
}

/// Exchanging two rows keeps the solutions.
proof fn lemma_swap_rows(
    coef: Seq<Vec<bool>>,
    rhs: Seq<bool>,
    c2: Seq<Vec<bool>>,
    h2: Seq<bool>,
    a: int,
    b: int,
    x: Seq<bool>,
    nv: int,
)
    requires
        0 <= a < coef.len(),
        0 <= b < coef.len(),
        rhs.len() == coef.len(),
        c2.len() == coef.len(),
        h2.len() == coef.len(),
        c2[a]@ == coef[b]@,
        c2[b]@ == coef[a]@,
        h2[a] == rhs[b],
        h2[b] == rhs[a],
        forall|r: int| 0 <= r < coef.len() && r != a && r != b ==> c2[r]@ == coef[r]@ && h2[r] == rhs[r],
    ensures
        rows_hold(c2, h2, x, nv) == rows_hold(coef, rhs, x, nv),
{
    if rows_hold(coef, rhs, x, nv) {
        assert forall|r: int| 0 <= r < c2.len() implies #[trigger] row_eval(c2[r]@, x, nv)
            == h2[r] by {
            let s = if r == b {
                a
            } else if r == a {
                b
            } else {
                r
            };
            assert(row_eval(coef[s]@, x, nv) == rhs[s]);
        }
    }
    if rows_hold(c2, h2, x, nv) {
        assert forall|r: int| 0 <= r < coef.len() implies #[trigger] row_eval(coef[r]@, x, nv)
            == rhs[r] by {
            let s = if r == b {
                a
            } else if r == a {
                b
            } else {
                r
            };
            assert(row_eval(c2[s]@, x, nv) == h2[s]);
        }
    }
}

/// In reduced form, two solutions that agree off the pivot columns are equal.
proof fn lemma_pivots_determined(
    coef: Seq<Vec<bool>>,
    rhs: Seq<bool>,
    nv: int,
    pivots: Seq<usize>,
    y: Seq<bool>,
    z: Seq<bool>,
)
    requires
        reduced(coef, nv, pivots),
        forall|r: int| 0 <= r < coef.len() ==> (#[trigger] coef[r]).len() == nv,
        y.len() == nv,
        z.len() == nv,
        rows_hold(coef, rhs, y, nv),
        rows_hold(coef, rhs, z, nv),
        forall|j: int| 0 <= j < nv && !pivots.contains(j as usize) ==> y[j] == z[j],
    ensures
        y == z,
{
    assert forall|j: int| 0 <= j < nv implies y[j] == z[j] by {
        if pivots.contains(j as usize) {
            let i = choose|i: int| 0 <= i < pivots.len() && pivots[i] == j as usize;
            let row = coef[i]@;
            let zu = z.update(j, y[j]);
            assert(row[j]);
            assert forall|k: int| 0 <= k < nv && row[k] implies zu[k] == y[k] by {
                if k != j && pivots.contains(k as usize) {
                    let i2 = choose|i2: int| 0 <= i2 < pivots.len() && pivots[i2] == k as usize;
                    assert(coef[i]@[pivots[i2] as int] == (i == i2));
                }
            }
            lemma_eval_agree(row, zu, y, nv);
            lemma_eval_flip(row, z, j, y[j], nv);
            assert(row_eval(coef[i]@, y, nv) == rhs[i]);
            assert(row_eval(coef[i]@, z, nv) == rhs[i]);
        }
    }
    assert(y =~= z);
}

/// Parity of `row . x` over the first `n` columns.
fn eval_row(row: &Vec<bool>, x: &Vec<bool>, n: usize) -> (r: bool)
    requires
        n <= row.len(),
        n <= x.len(),
    ensures
        r == row_eval(row@, x@, n as int),
{
    let mut acc = false;
    let mut j: usize = 0;
    while j < n
        invariant
            j <= n,
            n <= row.len(),
            n <= x.len(),
            acc == row_eval(row@, x@, j as int),
        decreases n - j,
    {
        acc = acc != (row[j] && x[j]);
        j += 1;
    }
    acc
}

/// `a` with `b` added to it, entry by entry.
fn xor_row(a: &Vec<bool>, b: &Vec<bool>) -> (r: Vec<bool>)
    requires
        a.len() == b.len(),
    ensures
        r.len() == a.len(),
        forall|j: int| 0 <= j < a.len() ==> r@[j] == (a@[j] != b@[j]),
{
    let mut r: Vec<bool> = Vec::new();
    let mut j: usize = 0;
    while j < a.len()
        invariant
            j <= a.len(),
            a.len() == b.len(),
            r.len() == j,
            forall|k: int| 0 <= k < j ==> r@[k] == (a@[k] != b@[k]),
        decreases a.len() - j,
    {
        r.push(a[j] != b[j]);
        j += 1;
    }
    r
}

fn copy_bits(v: &Vec<bool>) -> (r: Vec<bool>)
    ensures
        r@ == v@,
{
    let mut r: Vec<bool> = Vec::new();
    let mut j: usize = 0;
    while j < v.len()
        invariant
            j <= v.len(),
            r@ == v@.subrange(0, j as int),
        decreases v.len() - j,
    {
        r.push(v[j]);
        j += 1;
    }
    assert(r@ =~= v@);
    r
}

/// Number of set entries.
fn count_set(x: &Vec<bool>) -> (r: usize)
    ensures
        r == presses(x@),
{
    let mut r: usize = 0;
    let mut j: usize = 0;
    while j < x.len()
        invariant
            j <= x.len(),
            r <= j,
            r == presses(x@.subrange(0, j as int)),
        decreases x.len() - j,
    {
        assert(x@.subrange(0, j + 1).drop_last() =~= x@.subrange(0, j as int));
        if x[j] {
            r += 1;
        }
        j += 1;
    }
    assert(x@.subrange(0, x.len() as int) =~= x@);
    r
}


/// Exchanges rows `a` and `b`.
fn swap_rows(coef: &mut Vec<Vec<bool>>, rhs: &mut Vec<bool>, a: usize, b: usize, nv: usize)
    requires
        a < old(coef).len(),
        b < old(coef).len(),
        old(rhs).len() == old(coef).len(),
    ensures
        final(coef).len() == old(coef).len(),
        final(rhs).len() == old(rhs).len(),
        final(coef)@[a as int]@ == old(coef)@[b as int]@,
        final(coef)@[b as int]@ == old(coef)@[a as int]@,
        forall|r: int|
            0 <= r < old(coef).len() && r != a && r != b ==> (#[trigger] final(coef)@[r])@
                == old(coef)@[r]@,
        forall|x: Seq<bool>|
            rows_hold(final(coef)@, final(rhs)@, x, nv as int) == rows_hold(
                old(coef)@,
                old(rhs)@,
                x,
                nv as int,
            ),
{
    let ghost cs = coef@;
    let ghost hs = rhs@;
    let ra = copy_bits(&coef[a]);
    let rb = copy_bits(&coef[b]);
    coef.set(a, rb);
    coef.set(b, ra);
    let ha = rhs[a];
    let hb = rhs[b];
    rhs.set(a, hb);
    rhs.set(b, ha);
    proof {
        assert forall|x: Seq<bool>|
            rows_hold(coef@, rhs@, x, nv as int) == rows_hold(cs, hs, x, nv as int) by {
            lemma_swap_rows(cs, hs, coef@, rhs@, a as int, b as int, x, nv as int);
        }
    }
}

/// Adds the pivot row `rank` to every other row with a one in column `col`.
/// Only the columns where the pivot row has a one can change.
fn clear_column(coef: &mut Vec<Vec<bool>>, rhs: &mut Vec<bool>, rank: usize, col: usize, nv: usize)
    requires
        old(rhs).len() == old(coef).len(),
        rank < old(coef).len(),
        col < nv,
        forall|r: int| 0 <= r < old(coef).len() ==> (#[trigger] old(coef)@[r]).len() == nv,
        old(coef)@[rank as int]@[col as int],
    ensures
        final(coef).len() == old(coef).len(),
        final(rhs).len() == old(rhs).len(),
        forall|r: int| 0 <= r < final(coef).len() ==> (#[trigger] final(coef)@[r]).len() == nv,
        final(coef)@[rank as int]@ == old(coef)@[rank as int]@,
        forall|r: int| 0 <= r < final(coef).len() && r != rank ==> !(#[trigger] final(coef)@[r])@[col as int],
        forall|r: int, q: int|
            #![trigger final(coef)@[r]@[q]]
            0 <= r < final(coef).len() && 0 <= q < nv && !old(coef)@[rank as int]@[q]
                ==> final(coef)@[r]@[q] == old(coef)@[r]@[q],
        forall|x: Seq<bool>|
            x.len() == nv ==> (rows_hold(final(coef)@, final(rhs)@, x, nv as int) == rows_hold(
                old(coef)@,
                old(rhs)@,
                x,
                nv as int,
            )),
{
    let ghost c0 = coef@;
    let ghost h0 = rhs@;
    let ghost pr = coef@[rank as int]@;
    let nr = coef.len();
    let mut other: usize = 0;
    while other < nr
        invariant
            coef.len() == nr,
            rhs.len() == nr,
            rank < nr,
            col < nv,
            c0.len() == nr,
            forall|r: int| 0 <= r < nr ==> (#[trigger] coef@[r]).len() == nv,
            coef@[rank as int]@ == pr,
            pr[col as int],
            forall|r: int, q: int|
                #![trigger coef@[r]@[q]]
                0 <= r < nr && 0 <= q < nv && !pr[q] ==> coef@[r]@[q] == c0[r]@[q],
            forall|x: Seq<bool>|
                x.len() == nv ==> (rows_hold(coef@, rhs@, x, nv as int) == rows_hold(
                    c0,
                    h0,
                    x,
                    nv as int,
                )),
            other <= nr,
            forall|r: int| 0 <= r < other && r != rank ==> !(#[trigger] coef@[r])@[col as int],
        decreases nr - other,
    {
        if other != rank && coef[other][col] {
            let ghost cs = coef@;
            let ghost hs = rhs@;
            let v = xor_row(&coef[other], &coef[rank]);
            let h = rhs[other] != rhs[rank];
            proof {
                assert forall|x: Seq<bool>| x.len() == nv implies (rows_hold(
                    cs.update(other as int, v),
                    hs.update(other as int, h),
                    x,
                    nv as int,
                ) == rows_hold(c0, h0, x, nv as int)) by {
                    lemma_xor_rows(cs, hs, other as int, rank as int, v, x, nv as int);
                }
            }
            coef.set(other, v);
            rhs.set(other, h);
            proof {
                assert(coef@ =~= cs.update(other as int, v));
                assert(rhs@ =~= hs.update(other as int, h));
            }
        }
        other += 1;
    }
}

/// Gauss-Jordan elimination over GF(2) with first-row pivoting, columns taken
/// in increasing order. Returns the pivot column of each leading row; the
/// system keeps its solutions and ends in reduced form.
fn gauss_eliminate_gf2(coef: &mut Vec<Vec<bool>>, rhs: &mut Vec<bool>, nv: usize) -> (pivots: Vec<usize>)
    requires
        old(rhs).len() == old(coef).len(),
        forall|r: int| 0 <= r < old(coef).len() ==> (#[trigger] old(coef)@[r]).len() == nv,
    ensures
        final(coef).len() == old(coef).len(),
        final(rhs).len() == old(rhs).len(),
        forall|r: int| 0 <= r < final(coef).len() ==> (#[trigger] final(coef)@[r]).len() == nv,
        equivalent(final(coef)@, final(rhs)@, old(coef)@, old(rhs)@, nv as int),
        reduced(final(coef)@, nv as int, pivots@),
{
    let ghost c0 = coef@;
    let ghost h0 = rhs@;
    let nr = coef.len();
    let mut pivots: Vec<usize> = Vec::new();
    let mut rank: usize = 0;
    let mut col: usize = 0;
    proof {
        reveal(equivalent);
    }
    while col < nv
        invariant
            coef.len() == nr,
            rhs.len() == nr,
            forall|r: int| 0 <= r < nr ==> (#[trigger] coef@[r]).len() == nv,
            equivalent(coef@, rhs@, c0, h0, nv as int),
            col <= nv,
            rank == pivots.len(),
            rank <= nr,
            forall|i: int| 0 <= i < rank ==> pivots@[i] < col,
            forall|i: int, r: int|
                #![trigger coef@[r]@[pivots@[i] as int]]
                0 <= i < rank && 0 <= r < nr ==> coef@[r]@[pivots@[i] as int] == (r == i),
            forall|r: int, j: int|
                #![trigger coef@[r]@[j]]
                rank <= r < nr && 0 <= j < col ==> !coef@[r]@[j],
        decreases nv - col,
    {
        let mut p = rank;
        while p < nr && !coef[p][col]
            invariant
                rank <= p <= nr,
                coef.len() == nr,
                col < nv,
                forall|r: int| 0 <= r < nr ==> (#[trigger] coef@[r]).len() == nv,
                forall|r: int| rank <= r < p ==> !(#[trigger] coef@[r])@[col as int],
            decreases nr - p,
        {
            p += 1;
        }
        if p < nr {
            let ghost cb = coef@;
            let ghost hb = rhs@;
            swap_rows(coef, rhs, rank, p, nv);
            let ghost cm = coef@;
            let ghost hm = rhs@;
            clear_column(coef, rhs, rank, col, nv);
            proof {
                reveal(equivalent);
                assert forall|x: Seq<bool>| x.len() == nv implies #[trigger] rows_hold(coef@, rhs@, x, nv as int)
                    == rows_hold(c0, h0, x, nv as int) by {
                    assert(rows_hold(coef@, rhs@, x, nv as int) == rows_hold(cm, hm, x, nv as int));
                    assert(rows_hold(cm, hm, x, nv as int) == rows_hold(cb, hb, x, nv as int));
                    assert(rows_hold(cb, hb, x, nv as int) == rows_hold(c0, h0, x, nv as int));
                }
                assert forall|i: int, r: int|
                    0 <= i < rank && 0 <= r < nr implies coef@[r]@[pivots@[i] as int] == (r == i) by {
                    assert(!cm[rank as int]@[pivots@[i] as int]);
                }
                assert forall|r: int, j: int|
                    rank < r < nr && 0 <= j < col implies !coef@[r]@[j] by {
                    assert(!cm[rank as int]@[j]);
                }
            }
            pivots.push(col);
            rank += 1;
        }
        col += 1;
    }
    pivots
}

/// Sets each pivot variable from its row, keeping the other entries of `x`.
fn back_substitute(
    coef: &Vec<Vec<bool>>,
    rhs: &Vec<bool>,
    nv: usize,
    pivots: &Vec<usize>,
    x: &Vec<bool>,
) -> (y: Vec<bool>)
    requires
        rhs.len() == coef.len(),
        x.len() == nv,
        forall|r: int| 0 <= r < coef.len() ==> (#[trigger] coef@[r]).len() == nv,
        reduced(coef@, nv as int, pivots@),
        forall|r: int| pivots.len() <= r < coef.len() ==> !rhs@[r],
    ensures
        y.len() == nv,
        rows_hold(coef@, rhs@, y@, nv as int),
        forall|j: int| 0 <= j < nv && !pivots@.contains(j as usize) ==> y@[j] == x@[j],
{
    let mut y = copy_bits(x);
    let rank = pivots.len();
    let mut i: usize = 0;
    while i < rank
        invariant
            i <= rank,
            rank == pivots.len(),
            rhs.len() == coef.len(),
            y.len() == nv,
            forall|r: int| 0 <= r < coef.len() ==> (#[trigger] coef@[r]).len() == nv,
            reduced(coef@, nv as int, pivots@),
            forall|k: int| 0 <= k < i ==> #[trigger] row_eval(coef@[k]@, y@, nv as int) == rhs@[k],
            forall|j: int| 0 <= j < nv && !pivots@.contains(j as usize) ==> y@[j] == x@[j],
        decreases rank - i,
    {
        let p = pivots[i];
        let ghost y0 = y@;
        y.set(p, false);
        let e = eval_row(&coef[i], &y, nv);
        let ghost y1 = y@;
        y.set(p, rhs[i] != e);
        proof {
            assert(coef@[i as int]@[pivots@[i as int] as int]);
            lemma_eval_flip(coef@[i as int]@, y1, p as int, rhs@[i as int] != e, nv as int);
            assert(y@ == y1.update(p as int, rhs@[i as int] != e));
            assert forall|k: int| 0 <= k < i implies #[trigger] row_eval(coef@[k]@, y@, nv as int)
                == rhs@[k] by {
                assert(!coef@[k]@[pivots@[i as int] as int]);
                lemma_eval_agree(coef@[k]@, y@, y0, nv as int);
            }
            assert forall|j: int| 0 <= j < nv && !pivots@.contains(j as usize) implies y@[j] == x@[j] by {
                assert(pivots@[i as int] == p);
                assert(pivots@.contains(p));
            }
        }
        i += 1;
    }
    proof {
        assert forall|r: int| 0 <= r < coef.len() implies #[trigger] row_eval(coef@[r]@, y@, nv as int)
            == rhs@[r] by {
            if r >= rank {
                lemma_eval_zero(coef@[r]@, y@, nv as int);
            }
        }
    }
    y
}

/// A solution of the reduced system with the fewest ones among those whose
/// free variables `free[0..k]` take their values from `x`.
fn min_weight(
    coef: &Vec<Vec<bool>>,
    rhs: &Vec<bool>,
    nv: usize,
    pivots: &Vec<usize>,
    free: &Vec<usize>,
    k: usize,
    x: Vec<bool>,
) -> (best: (usize, Vec<bool>))
    requires
        rhs.len() == coef.len(),
        x.len() == nv,
        k <= free.len(),
        forall|r: int| 0 <= r < coef.len() ==> (#[trigger] coef@[r]).len() == nv,
        reduced(coef@, nv as int, pivots@),
        forall|r: int| pivots.len() <= r < coef.len() ==> !rhs@[r],
        forall|i: int| 0 <= i < free.len() ==> free@[i] < nv && !pivots@.contains(#[trigger] free@[i]),
        forall|i: int, i2: int| 0 <= i < i2 < free.len() ==> free@[i] < free@[i2],
        forall|j: usize| j < nv && !pivots@.contains(j) ==> #[trigger] free@.contains(j),
    ensures
        best.1.len() == nv,
        rows_hold(coef@, rhs@, best.1@, nv as int),
        presses(best.1@) == best.0,
        forall|i: int| 0 <= i < k ==> best.1@[free@[i] as int] == x@[free@[i] as int],
        forall|z: Seq<bool>|
            z.len() == nv && rows_hold(coef@, rhs@, z, nv as int) && (forall|i: int|
                0 <= i < k ==> z[free@[i] as int] == x@[free@[i] as int]) ==> best.0 <= presses(z),
    decreases free.len() - k,
{
    if k == free.len() {
        let y = back_substitute(coef, rhs, nv, pivots, &x);
        proof {
            assert forall|i: int| 0 <= i < k implies y@[free@[i] as int] == x@[free@[i] as int] by {
                assert(!pivots@.contains(free@[i]));
            }
        }
        let w = count_set(&y);
        proof {
            assert forall|z: Seq<bool>|
                z.len() == nv && rows_hold(coef@, rhs@, z, nv as int) && (forall|i: int|
                    0 <= i < k ==> z[free@[i] as int] == x@[free@[i] as int]) implies w <= presses(z) by {
                assert forall|j: int| 0 <= j < nv && !pivots@.contains(j as usize) implies y@[j] == z[j] by {
                    assert(free@.contains(j as usize));
                    let i = choose|i: int| 0 <= i < free.len() && free@[i] == j as usize;
                    assert(z[free@[i] as int] == x@[free@[i] as int]);
                }
                lemma_pivots_determined(coef@, rhs@, nv as int, pivots@, y@, z);
            }
        }
        (w, y)
    } else {
        let f = free[k];
        let mut x0 = copy_bits(&x);
        x0.set(f, false);
        let mut x1 = x;
        x1.set(f, true);
        let ghost xs = x0@;
        let ghost xt = x1@;
        let a = min_weight(coef, rhs, nv, pivots, free, k + 1, x0);
        let b = min_weight(coef, rhs, nv, pivots, free, k + 1, x1);
        proof {
            assert forall|i: int| 0 <= i < k implies xs[free@[i] as int] == x@[free@[i] as int] && xt[free@[i] as int] == x@[free@[i] as int] by {
                assert(free@[i] < free@[k as int]);
            }
            assert forall|z: Seq<bool>|
                z.len() == nv && rows_hold(coef@, rhs@, z, nv as int) && (forall|i: int|
                    0 <= i < k ==> z[free@[i] as int] == x@[free@[i] as int]) implies a.0 <= presses(z) || b.0 <= presses(z) by {
                if z[f as int] {
                    assert forall|i: int| 0 <= i < k + 1 implies z[free@[i] as int] == xt[free@[i] as int] by {
                        if i < k {
                            assert(free@[i] < free@[k as int]);
                        }
                    }
                } else {
                    assert forall|i: int| 0 <= i < k + 1 implies z[free@[i] as int] == xs[free@[i] as int] by {
                        if i < k {
                            assert(free@[i] < free@[k as int]);
                        }
                    }
                }
            }
        }
        if a.0 <= b.0 {
            a
        } else {
            b
        }
    }
}

/// Row `c` of the incidence system: which buttons touch light `c`, and
/// whether the light must end on.
fn incidence(machine: &Machine) -> (res: (Vec<Vec<bool>>, Vec<bool>))
    ensures
        res.0.len() == machine.target.len(),
        res.1@ == machine.target@,
        forall|r: int| 0 <= r < res.0.len() ==> (#[trigger] res.0@[r]).len() == machine.buttons.len(),
        forall|r: int, j: int|
            #![trigger res.0@[r]@[j]]
            0 <= r < res.0.len() && 0 <= j < machine.buttons.len() ==> res.0@[r]@[j] == touches(
                machine.button_seqs(),
                j,
                r,
            ),
{
    let nr = machine.target.len();
    let nv = machine.buttons.len();
    let mut coef: Vec<Vec<bool>> = Vec::new();
    let mut rhs: Vec<bool> = Vec::new();
    let mut c: usize = 0;
    while c < nr
        invariant
            c <= nr,
            nr == machine.target.len(),
            nv == machine.buttons.len(),
            coef.len() == c,
            rhs@ == machine.target@.subrange(0, c as int),
            forall|r: int| 0 <= r < c ==> (#[trigger] coef@[r]).len() == nv,
            forall|r: int, j: int|
                #![trigger coef@[r]@[j]]
                0 <= r < c && 0 <= j < nv ==> coef@[r]@[j] == touches(machine.button_seqs(), j, r),
        decreases nr - c,
    {
        let mut row: Vec<bool> = Vec::new();
        let mut b: usize = 0;
        while b < nv
            invariant
                b <= nv,
                nv == machine.buttons.len(),
                row.len() == b,
                forall|j: int| 0 <= j < b ==> row@[j] == touches(machine.button_seqs(), j, c as int),
            decreases nv - b,
        {
            row.push(lists(&machine.buttons[b], c));
            b += 1;
        }
        coef.push(row);
        rhs.push(machine.target[c]);
        c += 1;
    }
    assert(rhs@ =~= machine.target@);
    (coef, rhs)
}

/// Which buttons to press, each at most once, to light exactly `target`
/// with the fewest presses; `None` when no set of buttons does.
///
/// Every assignment of the free columns left by elimination is tried, so
/// the time grows as `2^F` in their number `F`: machines are expected to
/// keep `F` small (about 20 at most).
pub fn fewest_toggles(machine: &Machine) -> (r: Option<Vec<bool>>)
    ensures
        r matches Some(x) ==> lights_match(machine.button_seqs(), machine.target@, x@) && (forall|
            z: Seq<bool>,
        | lights_match(machine.button_seqs(), machine.target@, z) ==> presses(x@) <= presses(z)),
        r is None ==> forall|x: Seq<bool>| !lights_match(machine.button_seqs(), machine.target@, x),
{
    let ghost bs = machine.button_seqs();
    let ghost t = machine.target@;
    let nv = machine.buttons.len();
    let (mut coef, mut rhs) = incidence(machine);
    let nr = coef.len();
    let ghost c0 = coef@;
    let ghost h0 = rhs@;
    proof {
        assert forall|x: Seq<bool>| x.len() == nv implies (rows_hold(c0, h0, x, nv as int)
            == lights_match(bs, t, x)) by {
            assert forall|c: int| 0 <= c < nr implies #[trigger] row_eval(c0[c]@, x, nv as int)
                == toggled(bs, x, c, nv as int) by {
                lemma_eval_incidence(c0[c]@, bs, x, c, nv as int);
            }
            if rows_hold(c0, h0, x, nv as int) {
                assert forall|c: int| 0 <= c < t.len() implies #[trigger] toggled(bs, x, c, bs.len() as int)
                    == t[c] by {
                    assert(row_eval(c0[c]@, x, nv as int) == h0[c]);
                }
            }
            if lights_match(bs, t, x) {
                assert forall|c: int| 0 <= c < c0.len() implies #[trigger] row_eval(c0[c]@, x, nv as int)
                    == h0[c] by {
                    assert(toggled(bs, x, c, bs.len() as int) == t[c]);
                }
            }
        }
    }
    let pivots = gauss_eliminate_gf2(&mut coef, &mut rhs, nv);
    proof {
        reveal(equivalent);
        assert forall|x: Seq<bool>|
            x.len() == nv implies (#[trigger] rows_hold(coef@, rhs@, x, nv as int) == lights_match(bs, t, x)) by {
            assert(rows_hold(coef@, rhs@, x, nv as int) == rows_hold(c0, h0, x, nv as int));
        }
    }
    let rank = pivots.len();
    let mut r: usize = rank;
    while r < nr
        invariant
            rank <= r <= nr,
            rank == pivots.len(),
            nr == coef.len(),
            rhs.len() == nr,
            nv == bs.len(),
            bs == machine.button_seqs(),
            t == machine.target@,
            forall|q: int| 0 <= q < nr ==> (#[trigger] coef@[q]).len() == nv,
            reduced(coef@, nv as int, pivots@),
            forall|x: Seq<bool>|
                x.len() == nv ==> (#[trigger] rows_hold(coef@, rhs@, x, nv as int) == lights_match(
                    bs,
                    t,
                    x,
                )),
            forall|q: int| rank <= q < r ==> !rhs@[q],
        decreases nr - r,
    {
        if rhs[r] {
            proof {
                assert forall|x: Seq<bool>| !lights_match(bs, t, x) by {
                    if lights_match(bs, t, x) {
                        assert(rows_hold(coef@, rhs@, x, nv as int));
                        assert(row_eval(coef@[r as int]@, x, nv as int) == rhs@[r as int]);
                        lemma_eval_zero(coef@[r as int]@, x, nv as int);
                    }
                }
            }
            return None;
        }
        r += 1;
    }
    let mut free: Vec<usize> = Vec::new();
    let mut j: usize = 0;
    while j < nv
        invariant
            j <= nv,
            forall|i: int| 0 <= i < free.len() ==> free@[i] < j && !pivots@.contains(#[trigger] free@[i]),
            forall|i: int, i2: int| 0 <= i < i2 < free.len() ==> free@[i] < free@[i2],
            forall|q: usize| q < j && !pivots@.contains(q) ==> #[trigger] free@.contains(q),
        decreases nv - j,
    {
        if !lists(&pivots, j) {
            let ghost f0 = free@;
            free.push(j);
            proof {
                assert(free@[free.len() - 1] == j);
                assert forall|q: usize| q < j + 1 && !pivots@.contains(q) implies #[trigger] free@.contains(q) by {
                    if q < j {
                        assert(f0.contains(q));
                        let i = choose|i: int| 0 <= i < f0.len() && f0[i] == q;
                        assert(free@[i] == q);
                    } else {
                        assert(free@[free.len() - 1] == q);
                    }
                }
            }
        }
        j += 1;
    }
    let x = vec![false; nv];
    let (_, best) = min_weight(&coef, &rhs, nv, &pivots, &free, 0, x);
    proof {
        assert(rows_hold(coef@, rhs@, best@, nv as int));
    }
    Some(best)
}

/// Fewest buttons, each pressed at most once, that light exactly `target`;
/// `None` when no set of buttons does.
pub fn solve_machine(machine: &Machine) -> (r: Option<usize>)
    ensures
        r matches Some(m) ==> (exists|x: Seq<bool>|
            lights_match(machine.button_seqs(), machine.target@, x) && presses(x) == m) && (forall|
            x: Seq<bool>,
        | lights_match(machine.button_seqs(), machine.target@, x) ==> m <= presses(x)),
        r is None ==> forall|x: Seq<bool>| !lights_match(machine.button_seqs(), machine.target@, x),
{
    match fewest_toggles(machine) {
        Some(x) => Some(count_set(&x)),
        None => None,
    }
}

/// The lights after pressing the buttons that `x` marks, each once: the
/// equation-evaluation primitive of the toggle variant.
pub fn lights_after(machine: &Machine, x: &Vec<bool>) -> (r: Vec<bool>)
    requires
        x.len() == machine.buttons.len(),
    ensures
        r.len() == machine.target.len(),
        forall|c: int|
            0 <= c < r.len() ==> #[trigger] r@[c] == toggled(
                machine.button_seqs(),
                x@,
                c,
                machine.buttons.len() as int,
            ),
{
    let (coef, _) = incidence(machine);
    let nv = machine.buttons.len();
    let mut r: Vec<bool> = Vec::new();
    let mut c: usize = 0;
    while c < coef.len()
        invariant
            c <= coef.len(),
            coef.len() == machine.target.len(),
            nv == machine.buttons.len(),
            x.len() == nv,
            r.len() == c,
            forall|q: int| 0 <= q < coef.len() ==> (#[trigger] coef@[q]).len() == nv,
            forall|q: int, j: int|
                #![trigger coef@[q]@[j]]
                0 <= q < coef.len() && 0 <= j < nv ==> coef@[q]@[j] == touches(machine.button_seqs(), j, q),
            forall|q: int|
                0 <= q < c ==> #[trigger] r@[q] == toggled(machine.button_seqs(), x@, q, nv as int),
        decreases coef.len() - c,
    {
        let v = eval_row(&coef[c], x, nv);
        proof {
            lemma_eval_incidence(coef@[c as int]@, machine.button_seqs(), x@, c as int, nv as int);
        }
        r.push(v);
        c += 1;
    }
    r
}

/// Light `c` after button `b` is pressed `k[b]` times, over the first `n`
/// buttons.
pub open spec fn toggled_counts(buttons: Seq<Seq<nat>>, k: Seq<nat>, c: int, n: int) -> bool
    decreases n,
{
    if n <= 0 {
        false
    } else {
        toggled_counts(buttons, k, c, n - 1) != (k[n - 1] % 2 == 1 && touches(buttons, n - 1, c))
    }
}

/// Pressing a button twice more leaves every light as it was.
pub proof fn press_twice_cancels(buttons: Seq<Seq<nat>>, k: Seq<nat>, b: int, c: int, n: int)
    requires
        0 <= b < k.len(),
        n <= k.len(),
    ensures
        toggled_counts(buttons, k.update(b, k[b] + 2), c, n) == toggled_counts(buttons, k, c, n),
    decreases n,
{
    if n > 0 {
        press_twice_cancels(buttons, k, b, c, n - 1);
        assert((k[b] + 2) % 2 == k[b] % 2);
    }
}

/// Only the parity of each count matters: any press counts light what
/// pressing each button once or not at all, by that parity, lights.
pub proof fn only_parity_matters(buttons: Seq<Seq<nat>>, k: Seq<nat>, c: int, n: int)
    requires
        n <= k.len(),
    ensures
        toggled_counts(buttons, k, c, n) == toggled(buttons, k.map_values(|v: nat| v % 2 == 1), c, n),
    decreases n,
{
    if n > 0 {
        only_parity_matters(buttons, k, c, n - 1);
    }
}

} // verus!

pub use super::parser::{parse_input, parse_machine};
