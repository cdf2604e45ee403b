//! The exponent matrix: the exponent vectors of all monomials in one flat,
//! row-major buffer.
use vstd::prelude::*;

verus! {

/// Row `k` of a flat matrix with `nvars` columns.
pub open spec fn row_at<E>(exps: Seq<E>, nvars: int, k: int) -> Seq<E> {
    exps.subrange(k * nvars, (k + 1) * nvars)
}

/// The first `nterms` rows of a flat matrix with `nvars` columns.
pub open spec fn rows_of<E>(exps: Seq<E>, nvars: int, nterms: int) -> Seq<Seq<E>> {
    Seq::new(nterms as nat, |k: int| row_at(exps, nvars, k))
}

/// Where row `k` of `nterms` rows starts and ends.
pub proof fn lemma_row_bounds(k: int, nterms: int, nvars: int)
    requires
        0 <= k < nterms,
        0 <= nvars,
    ensures
        0 <= k * nvars,
        (k + 1) * nvars == k * nvars + nvars,
        (k + 1) * nvars <= nterms * nvars,
{
    assert(0 <= k * nvars) by (nonlinear_arith)
        requires
            0 <= k,
            0 <= nvars,
    ;
    assert((k + 1) * nvars == k * nvars + nvars) by (nonlinear_arith);
    assert((k + 1) * nvars <= nterms * nvars) by (nonlinear_arith)
        requires
            k + 1 <= nterms,
            0 <= nvars,
    ;
}

/// The rows of a matrix have `nvars` entries each, which are the entries of
/// the flat buffer.
pub proof fn lemma_rows_entries<E>(exps: Seq<E>, nvars: int, nterms: int)
    requires
        0 <= nvars,
        0 <= nterms,
        exps.len() == nterms * nvars,
    ensures
        rows_of(exps, nvars, nterms).len() == nterms,
        forall|k: int|
            0 <= k < nterms ==> (#[trigger] rows_of(exps, nvars, nterms)[k]).len() == nvars,
        forall|k: int, v: int|
            0 <= k < nterms && 0 <= v < nvars ==> #[trigger] rows_of(exps, nvars, nterms)[k][v]
                == exps[k * nvars + v],
{
    assert forall|k: int| 0 <= k < nterms implies (#[trigger] rows_of(exps, nvars, nterms)[k]).len()
        == nvars by {
        lemma_row_bounds(k, nterms, nvars);
    }
    assert forall|k: int, v: int| 0 <= k < nterms && 0 <= v < nvars implies #[trigger] rows_of(
        exps,
        nvars,
        nterms,
    )[k][v] == exps[k * nvars + v] by {
        lemma_row_bounds(k, nterms, nvars);
    }
}

/// Appending a row to the flat buffer appends it to the rows.
pub proof fn lemma_rows_push<E>(exps: Seq<E>, nvars: int, nterms: int, e: Seq<E>)
    requires
        0 <= nvars,
        0 <= nterms,
        exps.len() == nterms * nvars,
        e.len() == nvars,
    ensures
        (exps + e).len() == (nterms + 1) * nvars,
        rows_of(exps + e, nvars, nterms + 1) == rows_of(exps, nvars, nterms).push(e),
{
    lemma_row_bounds(nterms, nterms + 1, nvars);
    let a = rows_of(exps + e, nvars, nterms + 1);
    let b = rows_of(exps, nvars, nterms).push(e);
    assert forall|k: int| 0 <= k < nterms + 1 implies a[k] == b[k] by {
        lemma_row_bounds(k, nterms + 1, nvars);
        if k < nterms {
            lemma_row_bounds(k, nterms, nvars);
            assert(a[k] =~= rows_of(exps, nvars, nterms)[k]);
        } else {
            assert(a[k] =~= e);
        }
    }
    assert(a =~= b);
}

/// Putting a row into the flat buffer where row `p` starts inserts it into
/// the rows at `p`.
pub proof fn lemma_rows_insert<E>(exps: Seq<E>, nvars: int, nterms: int, p: int, e: Seq<E>)
    requires
        0 <= nvars,
        exps.len() == nterms * nvars,
        e.len() == nvars,
        0 <= p <= nterms,
    ensures
        0 <= p * nvars <= exps.len(),
        rows_of(
            exps.subrange(0, p * nvars) + e + exps.subrange(p * nvars, exps.len() as int),
            nvars,
            nterms + 1,
        ) == rows_of(exps, nvars, nterms).insert(p, e),
{
    assert(0 <= p * nvars <= nterms * nvars) by (nonlinear_arith)
        requires
            0 <= p <= nterms,
            0 <= nvars,
    ;
    let flat = exps.subrange(0, p * nvars) + e + exps.subrange(p * nvars, exps.len() as int);
    let a = rows_of(flat, nvars, nterms + 1);
    let b = rows_of(exps, nvars, nterms).insert(p, e);
    assert forall|k: int| 0 <= k < nterms + 1 implies a[k] == b[k] by {
        lemma_row_bounds(k, nterms + 1, nvars);
        if k < p {
            lemma_row_bounds(k, p, nvars);
            lemma_row_bounds(k, nterms, nvars);
            assert(a[k] =~= rows_of(exps, nvars, nterms)[k]);
        } else if k == p {
            assert(a[k] =~= e);
        } else {
            lemma_row_bounds(k - 1, nterms, nvars);
            lemma_row_bounds(p, k, nvars);
            assert(a[k] =~= rows_of(exps, nvars, nterms)[k - 1]);
        }
    }
    assert(a =~= b);
}

/// Cutting row `p` out of the flat buffer removes it from the rows.
pub proof fn lemma_rows_remove<E>(exps: Seq<E>, nvars: int, nterms: int, p: int)
    requires
        0 <= nvars,
        exps.len() == nterms * nvars,
        0 <= p < nterms,
    ensures
        0 <= p * nvars <= (p + 1) * nvars <= exps.len(),
        rows_of(
            exps.subrange(0, p * nvars) + exps.subrange((p + 1) * nvars, exps.len() as int),
            nvars,
            nterms - 1,
        ) == rows_of(exps, nvars, nterms).remove(p),
{
    lemma_row_bounds(p, nterms, nvars);
    let flat = exps.subrange(0, p * nvars) + exps.subrange((p + 1) * nvars, exps.len() as int);
    let a = rows_of(flat, nvars, nterms - 1);
    let b = rows_of(exps, nvars, nterms).remove(p);
    assert forall|k: int| 0 <= k < nterms - 1 implies a[k] == b[k] by {
        lemma_row_bounds(k, nterms - 1, nvars);
        if k < p {
            lemma_row_bounds(k, p, nvars);
            lemma_row_bounds(k, nterms, nvars);
            assert(a[k] =~= rows_of(exps, nvars, nterms)[k]);
        } else {
            lemma_row_bounds(k + 1, nterms, nvars);
            lemma_row_bounds(p, k + 1, nvars);
            assert(a[k] =~= rows_of(exps, nvars, nterms)[k + 1]);
        }
    }
    assert(a =~= b);
}

/// Appends a row to a flat buffer.
pub fn push_row<E: Copy>(buf: &mut Vec<E>, row: &[E])
    ensures
        final(buf)@ == old(buf)@ + row@,
{
    let n = row.len();
    let mut v: usize = 0;
    while v < n
        invariant
            n == row@.len(),
            v <= n,
            buf@ == old(buf)@ + row@.take(v as int),
        decreases n - v,
    {
        buf.push(row[v]);
        proof {
            assert(row@.take(v as int).push(row@[v as int]) =~= row@.take(v + 1));
            assert(buf@ =~= old(buf)@ + row@.take(v + 1));
        }
        v += 1;
    }
    proof {
        assert(row@.take(n as int) =~= row@);
    }
}

/// Puts a row into a flat buffer at the place `pos`.
pub fn insert_row<E: Copy>(buf: &mut Vec<E>, pos: usize, row: &[E])
    requires
        pos <= old(buf)@.len(),
    ensures
        final(buf)@ == old(buf)@.subrange(0, pos as int) + row@ + old(buf)@.subrange(
            pos as int,
            old(buf)@.len() as int,
        ),
{
    let len = buf.len();
    let mut out: Vec<E> = Vec::new();
    let mut i: usize = 0;
    while i < pos
        invariant
            len == buf@.len(),
            buf@ == old(buf)@,
            pos <= len,
            i <= pos,
            out@ == buf@.subrange(0, i as int),
        decreases pos - i,
    {
        out.push(buf[i]);
        proof {
            assert(out@ =~= buf@.subrange(0, i + 1));
        }
        i += 1;
    }
    push_row(&mut out, row);
    while i < len
        invariant
            len == buf@.len(),
            buf@ == old(buf)@,
            pos <= i <= len,
            out@ == buf@.subrange(0, pos as int) + row@ + buf@.subrange(pos as int, i as int),
        decreases len - i,
    {
        out.push(buf[i]);
        proof {
            assert(out@ =~= buf@.subrange(0, pos as int) + row@ + buf@.subrange(
                pos as int,
                i + 1,
            ));
        }
        i += 1;
    }
    *buf = out;
}

/// Cuts `n` entries out of a flat buffer, from the place `pos` on.
pub fn remove_range<E: Copy>(buf: &mut Vec<E>, pos: usize, n: usize)
    requires
        pos + n <= old(buf)@.len(),
    ensures
        final(buf)@ == old(buf)@.subrange(0, pos as int) + old(buf)@.subrange(
            pos + n,
            old(buf)@.len() as int,
        ),
{
    let len = buf.len();
    let mut out: Vec<E> = Vec::new();
    let mut i: usize = 0;
    while i < pos
        invariant
            len == buf@.len(),
            buf@ == old(buf)@,
            pos + n <= len,
            i <= pos,
            out@ == buf@.subrange(0, i as int),
        decreases pos - i,
    {
        out.push(buf[i]);
        proof {
            assert(out@ =~= buf@.subrange(0, i + 1));
        }
        i += 1;
    }
    i = pos + n;
    while i < len
        invariant
            len == buf@.len(),
            buf@ == old(buf)@,
            pos + n <= i <= len,
            out@ == buf@.subrange(0, pos as int) + buf@.subrange(pos + n, i as int),
        decreases len - i,
    {
        out.push(buf[i]);
        proof {
            assert(out@ =~= buf@.subrange(0, pos as int) + buf@.subrange(pos + n, i + 1));
        }
        i += 1;
    }
    *buf = out;
}

/// A vector of `n` copies of `e`.
pub fn filled<E: Copy>(e: E, n: usize) -> (r: Vec<E>)
    ensures
        r@ == Seq::new(n as nat, |v: int| e),
{
    let mut r: Vec<E> = Vec::new();
    let mut v: usize = 0;
    while v < n
        invariant
            v <= n,
            r@ == Seq::new(v as nat, |v: int| e),
        decreases n - v,
    {
        r.push(e);
        proof {
            assert(r@ =~= Seq::new((v + 1) as nat, |v: int| e));
        }
        v += 1;
    }
    r
}

} // verus!
