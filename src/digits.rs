//! Numbers written as sequences of digits in a fixed base.
use vstd::prelude::*;

verus! {

/// `base` raised to `e`.
pub open spec fn place(base: int, e: nat) -> int
    decreases e,
{
    if e == 0 {
        1
    } else {
        base * place(base, (e - 1) as nat)
    }
}

/// The number written by the digits `d` in `base`, most significant first.
pub open spec fn digits_value(d: Seq<int>, base: int) -> int
    decreases d.len(),
{
    if d.len() == 0 {
        0
    } else {
        digits_value(d.drop_last(), base) * base + d.last()
    }
}

/// Every digit lies in `0..base`.
pub open spec fn digits_in_range(d: Seq<int>, base: int) -> bool {
    forall|k: int| 0 <= k < d.len() ==> 0 <= #[trigger] d[k] < base
}

/// A value written with `n` digits lies in `0..base^n`.
pub proof fn lemma_digits_bound(d: Seq<int>, base: int)
    requires
        base > 1,
        digits_in_range(d, base),
    ensures
        0 <= digits_value(d, base) < place(base, d.len()),
    decreases d.len(),
{
    if d.len() > 0 {
        let p = d.drop_last();
        assert(digits_in_range(p, base)) by {
            assert forall|k: int| 0 <= k < p.len() implies 0 <= #[trigger] p[k] < base by {
                assert(p[k] == d[k]);
            }
        }
        lemma_digits_bound(p, base);
        let v = digits_value(p, base);
        let x = d.last();
        let q = place(base, p.len());
        assert(d[d.len() - 1] == x);
        assert(0 <= v * base + x < q * base) by (nonlinear_arith)
            requires
                0 <= v < q,
                0 <= x < base,
                base > 1,
        ;
        assert(place(base, d.len()) == base * q);
    }
}

/// Setting digit `k` to `x` moves the value by `(x - d[k]) * base^(n-1-k)`.
pub proof fn lemma_digits_update(d: Seq<int>, base: int, k: int, x: int)
    requires
        0 <= k < d.len(),
    ensures
        digits_value(d.update(k, x), base) == digits_value(d, base) + (x - d[k]) * place(
            base,
            (d.len() - 1 - k) as nat,
        ),
    decreases d.len(),
{
    let u = d.update(k, x);
    if k == d.len() - 1 {
        assert(u.drop_last() =~= d.drop_last());
    } else {
        assert(u.drop_last() =~= d.drop_last().update(k, x));
        lemma_digits_update(d.drop_last(), base, k, x);
        let a = digits_value(d.drop_last(), base);
        let p = place(base, (d.len() - 2 - k) as nat);
        assert(place(base, (d.len() - 1 - k) as nat) == base * p);
        assert((a + (x - d[k]) * p) * base == a * base + (x - d[k]) * (base * p))
            by (nonlinear_arith);
    }
}

/// Digits that are all zero are worth zero.
pub proof fn lemma_digits_zero(d: Seq<int>, base: int)
    requires
        forall|k: int| 0 <= k < d.len() ==> #[trigger] d[k] == 0,
    ensures
        digits_value(d, base) == 0,
    decreases d.len(),
{
    if d.len() > 0 {
        let p = d.drop_last();
        assert forall|k: int| 0 <= k < p.len() implies #[trigger] p[k] == 0 by {
            assert(p[k] == d[k]);
        }
        lemma_digits_zero(p, base);
        assert(d[d.len() - 1] == 0);
    }
}

/// One more digit on the right multiplies the value of a prefix by `base`.
pub proof fn lemma_digits_take_succ(d: Seq<int>, base: int, i: int)
    requires
        0 <= i < d.len(),
    ensures
        digits_value(d.take(i + 1), base) == digits_value(d.take(i), base) * base + d[i],
{
    assert(d.take(i + 1).drop_last() =~= d.take(i));
}

/// The digits `x` followed by `y` are worth `x * base^|y| + y`.
pub proof fn lemma_digits_concat(x: Seq<int>, y: Seq<int>, base: int)
    ensures
        digits_value(x + y, base) == digits_value(x, base) * place(base, y.len()) + digits_value(
            y,
            base,
        ),
    decreases y.len(),
{
    if y.len() == 0 {
        assert(x + y =~= x);
    } else {
        let yp = y.drop_last();
        assert((x + y).drop_last() =~= x + yp);
        assert((x + y).last() == y.last());
        lemma_digits_concat(x, yp, base);
        let vx = digits_value(x, base);
        let vy = digits_value(yp, base);
        let p = place(base, yp.len());
        assert(place(base, y.len()) == base * p);
        assert((vx * p + vy) * base + y.last() == vx * (base * p) + (vy * base + y.last()))
            by (nonlinear_arith);
    }
}

/// Of two digit strings of one length, the one with the smaller digit at the
/// first place where they differ is worth less.
pub proof fn lemma_digits_first_difference(a: Seq<int>, b: Seq<int>, k: int, base: int)
    requires
        base > 1,
        a.len() == b.len(),
        0 <= k < a.len(),
        a.take(k) == b.take(k),
        a[k] < b[k],
        digits_in_range(a, base),
        digits_in_range(b, base),
    ensures
        digits_value(a, base) < digits_value(b, base),
{
    let n = a.len();
    let ra = a.skip(k + 1);
    let rb = b.skip(k + 1);
    assert(a =~= a.take(k + 1) + ra);
    assert(b =~= b.take(k + 1) + rb);
    lemma_digits_concat(a.take(k + 1), ra, base);
    lemma_digits_concat(b.take(k + 1), rb, base);
    assert(digits_in_range(ra, base)) by {
        assert forall|t: int| 0 <= t < ra.len() implies 0 <= #[trigger] ra[t] < base by {
            assert(ra[t] == a[k + 1 + t]);
        }
    }
    assert(digits_in_range(rb, base)) by {
        assert forall|t: int| 0 <= t < rb.len() implies 0 <= #[trigger] rb[t] < base by {
            assert(rb[t] == b[k + 1 + t]);
        }
    }
    lemma_digits_bound(ra, base);
    lemma_digits_bound(rb, base);
    lemma_digits_take_succ(a, base, k);
    lemma_digits_take_succ(b, base, k);
    let t = digits_value(a.take(k), base);
    assert(digits_value(b.take(k), base) == t);
    let p = place(base, ra.len());
    assert(rb.len() == ra.len());
    let va = digits_value(ra, base);
    let vb = digits_value(rb, base);
    let ak = a[k];
    let bk = b[k];
    assert((t * base + ak) * p + va < (t * base + bk) * p + vb) by (nonlinear_arith)
        requires
            ak < bk,
            0 <= va < p,
            0 <= vb,
    ;
}

} // verus!
