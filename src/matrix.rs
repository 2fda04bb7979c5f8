//! Square matrices of `u32` and their element-wise sum, computed
//! sequentially or striped across a number of workers.

use vstd::arithmetic::div_mod::{lemma_fundamental_div_mod, lemma_fundamental_div_mod_converse};
use vstd::prelude::*;

verus! {

/// A matrix stored row by row.
pub type Matrix = Vec<Vec<u32>>;

/// The rows of a matrix as sequences.
pub open spec fn view_of(m: &Matrix) -> Seq<Seq<u32>> {
    m@.map_values(|r: Vec<u32>| r@)
}

/// `m` has `n` rows of `n` elements each.
pub open spec fn is_square(m: Seq<Seq<u32>>, n: int) -> bool {
    &&& m.len() == n
    &&& forall|i: int| 0 <= i < n ==> (#[trigger] m[i]).len() == n
}

/// Addition of two elements, wrapping modulo 2^32.
pub open spec fn add_wrap(x: u32, y: u32) -> u32 {
    ((x as int + y as int) % 4294967296) as u32
}

/// `r` is the element-wise sum of the `n`×`n` matrices `a` and `b`.
pub open spec fn is_sum(a: Seq<Seq<u32>>, b: Seq<Seq<u32>>, r: Seq<Seq<u32>>, n: int) -> bool {
    &&& is_square(r, n)
    &&& forall|i: int, j: int|
        0 <= i < n && 0 <= j < n ==> #[trigger] r[i][j] == add_wrap(a[i][j], b[i][j])
}

/// Row `i` of the sum of `a` and `b`.
pub open spec fn sum_row(a: Seq<Seq<u32>>, b: Seq<Seq<u32>>, i: int, n: int) -> Seq<u32> {
    Seq::new(n as nat, |j: int| add_wrap(a[i][j], b[i][j]))
}

/// The rows computed by one worker, each beside its index in the full matrix.
pub struct ThreadSumResult {
    pub sum: Vec<Vec<u32>>,
    pub indices: Vec<usize>,
}

/// `p` holds, for each of its indices, the matching row of the sum, and its
/// indices are those striped to worker `w`.
pub open spec fn is_stripe(
    a: Seq<Seq<u32>>,
    b: Seq<Seq<u32>>,
    n: int,
    w: int,
    workers: int,
    p: &ThreadSumResult,
) -> bool {
    &&& p.sum@.len() == p.indices@.len()
    &&& forall|k: int|
        0 <= k < p.indices@.len() ==> #[trigger] p.indices@[k] as int == w + k * workers
    &&& forall|k: int| 0 <= k < p.indices@.len() ==> (#[trigger] p.indices@[k]) < n
    &&& w + p.indices@.len() * workers >= n
    &&& forall|k: int|
        0 <= k < p.sum@.len() ==> #[trigger] p.sum@[k]@ == sum_row(
            a,
            b,
            p.indices@[k] as int,
            n,
        )
}

/// A new `n`×`n` matrix of zeros.
pub fn zeros(n: usize) -> (r: Matrix)
    ensures
        is_square(view_of(&r), n as int),
        forall|i: int| 0 <= i < n ==> (#[trigger] r@[i])@.len() == n,
        forall|i: int, j: int| 0 <= i < n && 0 <= j < n ==> #[trigger] r@[i]@[j] == 0,
{
    let mut r: Matrix = Vec::new();
    let mut i: usize = 0;
    while i < n
        invariant
            i <= n,
            r@.len() == i,
            forall|k: int| 0 <= k < i ==> (#[trigger] r@[k])@.len() == n,
            forall|k: int, j: int| 0 <= k < i && 0 <= j < n ==> #[trigger] r@[k]@[j] == 0,
        decreases n - i,
    {
        let row: Vec<u32> = vec![0u32; n];
        r.push(row);
        i = i + 1;
    }
    r
}

/// Row `i` of the sum of `a` and `b`.
fn row_sum(a: &Matrix, b: &Matrix, i: usize) -> (r: Vec<u32>)
    requires
        is_square(view_of(a), a@.len() as int),
        is_square(view_of(b), a@.len() as int),
        i < a@.len(),
    ensures
        r@ == sum_row(view_of(a), view_of(b), i as int, a@.len() as int),
{
    let n = a.len();
    let ra = &a[i];
    let rb = &b[i];
    assert(ra@ == view_of(a)[i as int]);
    assert(rb@ == view_of(b)[i as int]);
    let mut row: Vec<u32> = Vec::with_capacity(n);
    let mut j: usize = 0;
    while j < n
        invariant
            j <= n,
            n == a@.len(),
            ra@.len() == n,
            rb@.len() == n,
            ra@ == view_of(a)[i as int],
            rb@ == view_of(b)[i as int],
            row@ == sum_row(view_of(a), view_of(b), i as int, n as int).subrange(0, j as int),
        decreases n - j,
    {
        row.push(ra[j].wrapping_add(rb[j]));
        proof {
            assert(row@ =~= sum_row(view_of(a), view_of(b), i as int, n as int).subrange(
                0,
                j + 1,
            ));
        }
        j = j + 1;
    }
    assert(row@ =~= sum_row(view_of(a), view_of(b), i as int, n as int));
    row
}

/// The rows striped to worker `thread_index` of `workers`: rows
/// `thread_index`, `thread_index + workers`, ... below the side, each summed.
pub fn thread_sum(a: &Matrix, b: &Matrix, thread_index: usize, workers: usize) -> (r:
    ThreadSumResult)
    requires
        workers > 0,
        is_square(view_of(a), a@.len() as int),
        is_square(view_of(b), a@.len() as int),
    ensures
        is_stripe(
            view_of(a),
            view_of(b),
            a@.len() as int,
            thread_index as int,
            workers as int,
            &r,
        ),
{
    let n = a.len();
    let mut sum: Vec<Vec<u32>> = Vec::new();
    let mut indices: Vec<usize> = Vec::new();
    let mut x: usize = thread_index;
    let ghost w = thread_index as int;
    while x < n
        invariant
            n == a@.len(),
            workers > 0,
            w == thread_index,
            is_square(view_of(a), n as int),
            is_square(view_of(b), n as int),
            sum@.len() == indices@.len(),
            x < n ==> x == w + indices@.len() * workers,
            x >= n ==> w + indices@.len() * workers >= n,
            forall|k: int|
                0 <= k < indices@.len() ==> #[trigger] indices@[k] as int == w + k * workers,
            forall|k: int| 0 <= k < indices@.len() ==> (#[trigger] indices@[k]) < n,
            forall|k: int|
                0 <= k < sum@.len() ==> #[trigger] sum@[k]@ == sum_row(
                    view_of(a),
                    view_of(b),
                    indices@[k] as int,
                    n as int,
                ),
        decreases n - x,
    {
        let row = row_sum(a, b, x);
        sum.push(row);
        indices.push(x);
        proof {
            let k = indices@.len() - 1;
            assert(w + (k + 1) * workers == w + k * workers + workers) by (nonlinear_arith);
        }
        if n - x > workers {
            x = x + workers;
        } else {
            x = n;
        }
    }
    ThreadSumResult { sum, indices }
}

/// Writes the element-wise sum of the `n`×`n` matrices `a` and `b` into the
/// top-left `n`×`n` block of `sum`, in place: row lengths and every cell
/// outside that block keep their values.
pub fn simple_sum(a: &Matrix, b: &Matrix, sum: &mut Matrix)
    requires
        is_square(view_of(a), a@.len() as int),
        is_square(view_of(b), a@.len() as int),
        old(sum)@.len() >= a@.len(),
        forall|i: int| 0 <= i < a@.len() ==> (#[trigger] old(sum)@[i])@.len() >= a@.len(),
    ensures
        final(sum)@.len() == old(sum)@.len(),
        forall|i: int|
            0 <= i < old(sum)@.len() ==> (#[trigger] final(sum)@[i])@.len() == old(sum)@[i]@.len(),
        forall|i: int, j: int|
            0 <= i < a@.len() && 0 <= j < a@.len() ==> #[trigger] final(sum)@[i]@[j] == add_wrap(
                view_of(a)[i][j],
                view_of(b)[i][j],
            ),
        forall|i: int, j: int|
            0 <= i < old(sum)@.len() && 0 <= j < old(sum)@[i]@.len() && (i >= a@.len() || j
                >= a@.len()) ==> #[trigger] final(sum)@[i]@[j] == old(sum)@[i]@[j],
{
    let n = a.len();
    let mut i: usize = 0;
    while i < n
        invariant
            i <= n,
            n == a@.len(),
            sum@.len() == old(sum)@.len(),
            old(sum)@.len() >= n,
            is_square(view_of(a), n as int),
            is_square(view_of(b), n as int),
            forall|k: int| 0 <= k < sum@.len() ==> (#[trigger] sum@[k])@.len() == old(sum)@[k]@.len(),
            forall|k: int| 0 <= k < n ==> (#[trigger] old(sum)@[k])@.len() >= n,
            forall|k: int, j: int|
                0 <= k < i && 0 <= j < n ==> #[trigger] sum@[k]@[j] == add_wrap(
                    view_of(a)[k][j],
                    view_of(b)[k][j],
                ),
            forall|k: int, j: int|
                0 <= k < sum@.len() && 0 <= j < sum@[k]@.len() && (k >= i || j >= n)
                    ==> #[trigger] sum@[k]@[j] == old(sum)@[k]@[j],
        decreases n - i,
    {
        let ra = &a[i];
        let rb = &b[i];
        assert(ra@ == view_of(a)[i as int]);
        assert(rb@ == view_of(b)[i as int]);
        let mut row: Vec<u32> = Vec::new();
        std::mem::swap(&mut row, &mut sum[i]);
        let ghost before = row@;
        assert(before.len() == old(sum)@[i as int]@.len());
        let mut j: usize = 0;
        while j < n
            invariant
                j <= n,
                n == a@.len(),
                ra@.len() == n,
                rb@.len() == n,
                ra@ == view_of(a)[i as int],
                rb@ == view_of(b)[i as int],
                before.len() >= n,
                row@.len() == before.len(),
                forall|c: int| 0 <= c < j ==> #[trigger] row@[c] == add_wrap(ra@[c], rb@[c]),
                forall|c: int| j <= c < before.len() ==> #[trigger] row@[c] == before[c],
            decreases n - j,
        {
            row.set(j, ra[j].wrapping_add(rb[j]));
            j = j + 1;
        }
        sum.set(i, row);
        i = i + 1;
    }
}

/// Row `w + k * workers` lies in stripe `w`, at position `k` of it.
proof fn lemma_stripe_position(w: int, k: int, workers: int)
    requires
        0 <= w < workers,
        0 <= k,
    ensures
        (w + k * workers) % workers == w,
        (w + k * workers) / workers == k,
{
    lemma_fundamental_div_mod_converse(w + k * workers, workers, k, w);
}

/// Joins the stripes of all `workers` workers into one matrix, each row at
/// its index.
pub fn merge_rows(a: &Matrix, b: &Matrix, workers: usize, parts: Vec<ThreadSumResult>) -> (r:
    Matrix)
    requires
        workers > 0,
        parts@.len() == workers,
        is_square(view_of(a), a@.len() as int),
        is_square(view_of(b), a@.len() as int),
        forall|w: int|
            0 <= w < workers ==> is_stripe(
                view_of(a),
                view_of(b),
                a@.len() as int,
                w,
                workers as int,
                #[trigger] &parts@[w],
            ),
    ensures
        is_sum(view_of(a), view_of(b), view_of(&r), a@.len() as int),
{
    let n = a.len();
    let ghost va = view_of(a);
    let ghost vb = view_of(b);
    let mut r = zeros(n);
    let mut parts = parts;
    while parts.len() > 0
        invariant
            n == a@.len(),
            va == view_of(a),
            vb == view_of(b),
            workers > 0,
            parts@.len() <= workers,
            r@.len() == n,
            forall|i: int| 0 <= i < n ==> (#[trigger] r@[i])@.len() == n,
            forall|w: int|
                0 <= w < parts@.len() ==> is_stripe(
                    va,
                    vb,
                    n as int,
                    w,
                    workers as int,
                    #[trigger] &parts@[w],
                ),
            forall|i: int|
                0 <= i < n && i % (workers as int) >= parts@.len() ==> (#[trigger] r@[i])@
                    == sum_row(va, vb, i, n as int),
        decreases parts@.len(),
    {
        let mut p = parts.pop().unwrap();
        let ghost w = parts@.len() as int;
        let ghost idx0 = p.indices@;
        let ghost rows0 = p.sum@;
        assert(is_stripe(va, vb, n as int, w, workers as int, &p));
        while p.indices.len() > 0
            invariant
                n == a@.len(),
                workers > 0,
                0 <= w < workers,
                r@.len() == n,
                forall|i: int| 0 <= i < n ==> (#[trigger] r@[i])@.len() == n,
                p.sum@.len() == p.indices@.len(),
                p.indices@.len() <= idx0.len(),
                p.indices@ == idx0.subrange(0, p.indices@.len() as int),
                p.sum@ == rows0.subrange(0, p.indices@.len() as int),
                rows0.len() == idx0.len(),
                forall|k: int| 0 <= k < idx0.len() ==> #[trigger] idx0[k] as int == w + k * workers,
                forall|k: int| 0 <= k < idx0.len() ==> (#[trigger] idx0[k]) < n,
                forall|k: int|
                    0 <= k < rows0.len() ==> #[trigger] rows0[k]@ == sum_row(
                        va,
                        vb,
                        idx0[k] as int,
                        n as int,
                    ),
                forall|i: int|
                    0 <= i < n && i % (workers as int) > w ==> (#[trigger] r@[i])@ == sum_row(
                        va,
                        vb,
                        i,
                        n as int,
                    ),
                forall|k: int|
                    p.indices@.len() <= k < idx0.len() ==> (#[trigger] r@[idx0[k] as int])@
                        == sum_row(va, vb, idx0[k] as int, n as int),
            decreases p.indices@.len(),
        {
            let idx = p.indices.pop().unwrap();
            let row = p.sum.pop().unwrap();
            let ghost k = p.indices@.len() as int;
            proof {
                assert(idx == idx0[k]);
                assert(row == rows0[k]);
                lemma_stripe_position(w, k, workers as int);
                assert forall|k2: int| k < k2 < idx0.len() implies idx0[k2] != idx0[k] by {
                    assert(idx0[k2] as int == w + k2 * workers);
                    assert(k2 * workers > k * workers) by (nonlinear_arith)
                        requires k2 > k, workers > 0;
                }
            }
            r.set(idx, row);
            proof {
                assert(p.indices@ =~= idx0.subrange(0, p.indices@.len() as int));
                assert(p.sum@ =~= rows0.subrange(0, p.indices@.len() as int));
            }
        }
        proof {
            assert forall|i: int|
                0 <= i < n && i % (workers as int) >= parts@.len() implies (#[trigger] r@[i])@
                == sum_row(va, vb, i, n as int) by {
                if i % (workers as int) == w {
                    let k = i / (workers as int);
                    lemma_fundamental_div_mod(i, workers as int);
                    assert(i == w + k * workers) by (nonlinear_arith)
                        requires i == workers * k + w;
                    assert(k >= 0) by (nonlinear_arith)
                        requires i >= 0, workers > 0, k == i / (workers as int);
                    if k >= idx0.len() {
                        assert(w + idx0.len() * workers >= n);
                        assert(k * workers >= idx0.len() * workers) by (nonlinear_arith)
                            requires k >= idx0.len(), workers > 0;
                    }
                    assert(idx0[k] as int == i);
                }
            }
        }
    }
    proof {
        assert forall|i: int| 0 <= i < n implies (#[trigger] view_of(&r)[i]).len() == n by {}
        assert forall|i: int, j: int| 0 <= i < n && 0 <= j < n implies #[trigger] view_of(
            &r,
        )[i][j] == add_wrap(va[i][j], vb[i][j]) by {
            assert(r@[i]@ == sum_row(va, vb, i, n as int));
        }
    }
    r
}

/// The element-wise sum of `a` and `b`, computed directly when `workers` is
/// zero and otherwise as `workers` row stripes joined by index.
pub fn calculate(a: &Matrix, b: &Matrix, workers: usize) -> (r: Matrix)
    requires
        is_square(view_of(a), a@.len() as int),
        is_square(view_of(b), a@.len() as int),
    ensures
        is_sum(view_of(a), view_of(b), view_of(&r), a@.len() as int),
{
    let n = a.len();
    if workers == 0 {
        let mut sum = zeros(n);
        simple_sum(a, b, &mut sum);
        proof {
            assert forall|i: int| 0 <= i < n implies (#[trigger] view_of(&sum)[i]).len() == n by {}
        }
        sum
    } else {
        let mut parts: Vec<ThreadSumResult> = Vec::with_capacity(workers);
        let mut w: usize = 0;
        while w < workers
            invariant
                w <= workers,
                parts@.len() == w,
                is_square(view_of(a), n as int),
                is_square(view_of(b), n as int),
                n == a@.len(),
                forall|v: int|
                    0 <= v < w ==> is_stripe(
                        view_of(a),
                        view_of(b),
                        n as int,
                        v,
                        workers as int,
                        #[trigger] &parts@[v],
                    ),
            decreases workers - w,
        {
            parts.push(thread_sum(a, b, w, workers));
            w = w + 1;
        }
        merge_rows(a, b, workers, parts)
    }
}

/// A copy of `m`, row by row.
pub fn copy_matrix(m: &Matrix) -> (r: Matrix)
    ensures
        view_of(&r) == view_of(m),
{
    let mut r: Matrix = Vec::new();
    let mut i: usize = 0;
    while i < m.len()
        invariant
            i <= m@.len(),
            r@.len() == i,
            forall|k: int| 0 <= k < i ==> (#[trigger] r@[k])@ == m@[k]@,
        decreases m@.len() - i,
    {
        let src = &m[i];
        let mut row: Vec<u32> = Vec::with_capacity(src.len());
        let mut j: usize = 0;
        while j < src.len()
            invariant
                j <= src@.len(),
                row@ == src@.subrange(0, j as int),
            decreases src@.len() - j,
        {
            row.push(src[j]);
            assert(row@ =~= src@.subrange(0, j + 1));
            j = j + 1;
        }
        assert(row@ =~= src@);
        r.push(row);
        i = i + 1;
    }
    assert(view_of(&r) =~= view_of(m));
    r
}

} // verus!
