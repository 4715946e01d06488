use vstd::prelude::*;

verus! {

/// Sum of a sequence of sizes, as a mathematical integer.
pub open spec fn total(s: Seq<usize>) -> int
    decreases s.len(),
{
    if s.len() == 0 {
        0
    } else {
        total(s.drop_last()) + s.last()
    }
}

/// The guaranteed part of child `i`'s share: `floor(cookies * w[i] / total(w))`.
pub open spec fn base_share(cookies: nat, w: Seq<usize>, i: int) -> int {
    (cookies * w[i]) as int / total(w)
}

/// The fractional part of child `i`'s share, scaled by `total(w)`.
pub open spec fn frac_share(cookies: nat, w: Seq<usize>, i: int) -> int {
    (cookies * w[i]) as int % total(w)
}

/// Child `i` comes before child `j` when handing out the leftover cookies:
/// a larger fractional share first, and the lower index among equals.
pub open spec fn outranks(cookies: nat, w: Seq<usize>, i: int, j: int) -> bool {
    frac_share(cookies, w, i) > frac_share(cookies, w, j) || (frac_share(cookies, w, i)
        == frac_share(cookies, w, j) && i < j)
}

/// `a` is the fair division of `cookies` among children with weights `w`:
/// each child gets the floor of its exact share, possibly plus one, and
/// the one only where the share is not whole (so never above the ceiling);
/// the extras are exactly the leftover cookies; and they go to the
/// children that come first by `outranks`.
pub open spec fn is_fair_division(cookies: nat, w: Seq<usize>, a: Seq<usize>) -> bool {
    &&& a.len() == w.len()
    &&& w.len() > 0 ==> total(a) == cookies
    &&& forall|i: int|
        0 <= i < a.len() ==> a[i] == base_share(cookies, w, i) || a[i] == base_share(
            cookies,
            w,
            i,
        ) + 1
    &&& forall|i: int|
        0 <= i < a.len() && a[i] > base_share(cookies, w, i) ==> #[trigger] frac_share(
            cookies,
            w,
            i,
        ) > 0
    &&& forall|i: int, j: int|
        0 <= i < a.len() && 0 <= j < a.len() && a[i] > base_share(cookies, w, i) && a[j]
            == base_share(cookies, w, j) ==> #[trigger] outranks(cookies, w, i, j)
}

/// The weights that `proportionally_divide` accepts: the products and the
/// sum fit in a `usize`, and a non-empty list has a positive sum.
pub open spec fn divisible(cookies: usize, w: Seq<usize>) -> bool {
    &&& total(w) <= usize::MAX
    &&& w.len() > 0 ==> total(w) > 0
    &&& forall|i: int| 0 <= i < w.len() ==> cookies * w[i] <= usize::MAX
}


pub proof fn lemma_total_push(s: Seq<usize>, x: usize)
    ensures
        total(s.push(x)) == total(s) + x,
{
    assert(s.push(x).drop_last() =~= s);
}

pub proof fn lemma_total_nonneg(s: Seq<usize>)
    ensures
        total(s) >= 0,
    decreases s.len(),
{
    if s.len() > 0 {
        lemma_total_nonneg(s.drop_last());
    }
}

pub proof fn lemma_total_prefix(s: Seq<usize>, k: int)
    requires
        0 <= k <= s.len(),
    ensures
        total(s.take(k)) <= total(s),
    decreases s.len(),
{
    if k < s.len() {
        assert(s.drop_last().take(k) =~= s.take(k));
        lemma_total_prefix(s.drop_last(), k);
    } else {
        assert(s.take(k) =~= s);
    }
}

proof fn lemma_total_update(s: Seq<usize>, i: int, v: usize)
    requires
        0 <= i < s.len(),
    ensures
        total(s.update(i, v)) == total(s) - s[i] + v,
    decreases s.len(),
{
    if i == s.len() - 1 {
        assert(s.update(i, v).drop_last() =~= s.drop_last());
    } else {
        assert(s.update(i, v).drop_last() =~= s.drop_last().update(i, v));
        lemma_total_update(s.drop_last(), i, v);
    }
}

proof fn lemma_total_elem(s: Seq<usize>, i: int)
    requires
        0 <= i < s.len(),
    ensures
        s[i] <= total(s),
    decreases s.len(),
{
    lemma_total_nonneg(s.drop_last());
    if i < s.len() - 1 {
        lemma_total_elem(s.drop_last(), i);
    }
}

/// Entry-wise bounds `s[i] <= c * (a[i] - b[i])` add up.
proof fn lemma_total_weighted(s: Seq<usize>, a: Seq<usize>, b: Seq<usize>, c: int)
    requires
        s.len() == a.len(),
        a.len() == b.len(),
        c >= 0,
        forall|i: int| 0 <= i < s.len() ==> s[i] <= c * (a[i] - b[i]),
    ensures
        total(s) <= c * (total(a) - total(b)),
    decreases s.len(),
{
    if s.len() > 0 {
        let n = s.len() - 1;
        lemma_total_weighted(s.drop_last(), a.drop_last(), b.drop_last(), c);
        let ta = total(a.drop_last());
        let tb = total(b.drop_last());
        assert(c * (ta - tb) + c * (a[n] - b[n]) == c * ((ta + a[n]) - (tb + b[n])))
            by (nonlinear_arith);
    }
}

/// When every entry of `a` is one more than that of `b`, the totals differ by the length.
proof fn lemma_total_all_incremented(a: Seq<usize>, b: Seq<usize>)
    requires
        a.len() == b.len(),
        forall|i: int| 0 <= i < a.len() ==> a[i] == b[i] + 1,
    ensures
        total(a) == total(b) + a.len(),
    decreases a.len(),
{
    if a.len() > 0 {
        lemma_total_all_incremented(a.drop_last(), b.drop_last());
    }
}

/// Each entry below `bound` keeps the total at most `len * bound - len`.
proof fn lemma_total_bounded(s: Seq<usize>, bound: int)
    requires
        forall|i: int| 0 <= i < s.len() ==> s[i] < bound,
    ensures
        total(s) + s.len() <= s.len() * bound,
    decreases s.len(),
{
    if s.len() > 0 {
        lemma_total_bounded(s.drop_last(), bound);
        let n = s.len() - 1;
        assert((n + 1) * bound == n * bound + bound) by (nonlinear_arith);
    }
}

/// `cookies * total(w) == whole * total(base) + total(rem)` when `base` and `rem`
/// hold the quotients and remainders of `cookies * w[i]` by `whole`.
proof fn lemma_division_identity(
    cookies: nat,
    w: Seq<usize>,
    whole: int,
    base: Seq<usize>,
    rem: Seq<usize>,
)
    requires
        whole > 0,
        base.len() == w.len(),
        rem.len() == w.len(),
        forall|i: int| 0 <= i < w.len() ==> base[i] == (cookies * w[i]) as int / whole,
        forall|i: int| 0 <= i < w.len() ==> rem[i] == (cookies * w[i]) as int % whole,
    ensures
        cookies * total(w) == whole * total(base) + total(rem),
    decreases w.len(),
{
    if w.len() > 0 {
        let n = w.len() - 1;
        lemma_division_identity(cookies, w.drop_last(), whole, base.drop_last(), rem.drop_last());
        let x = (cookies * w[n]) as int;
        vstd::arithmetic::div_mod::lemma_fundamental_div_mod(x, whole);
        let tw = total(w.drop_last());
        let tb = total(base.drop_last());
        assert(cookies * (tw + w[n]) == cookies * tw + cookies * w[n]) by (nonlinear_arith);
        assert(whole * (tb + base[n]) == whole * tb + whole * base[n]) by (nonlinear_arith);
    }
}

/// Divide `cookies` among children as fairly as possible, where the `i`th
/// child has weight `child_hungers[i]`. Each child first gets the floor of
/// its exact share; the cookies left over go one each to the children with
/// the largest remainders, exact ties to the leftmost.
pub fn proportionally_divide(cookies: usize, child_hungers: &Vec<usize>) -> (r: Vec<usize>)
    requires
        divisible(cookies, child_hungers@),
    ensures
        is_fair_division(cookies as nat, child_hungers@, r@),
{
    let ghost w = child_hungers@;
    let n = child_hungers.len();
    let mut total_hunger: usize = 0;
    let mut i: usize = 0;
    while i < n
        invariant
            n == w.len(),
            w == child_hungers@,
            divisible(cookies, w),
            0 <= i <= n,
            total_hunger == total(w.take(i as int)),
        decreases n - i,
    {
        proof {
            assert(w.take(i + 1).drop_last() =~= w.take(i as int));
            lemma_total_prefix(w, i + 1);
        }
        total_hunger = total_hunger + child_hungers[i];
        i = i + 1;
    }
    proof {
        assert(w.take(n as int) =~= w);
    }
    if n == 0 {
        return Vec::new();
    }
    let mut base: Vec<usize> = Vec::new();
    let mut alloc: Vec<usize> = Vec::new();
    let mut rem: Vec<usize> = Vec::new();
    let mut allocated: usize = 0;
    i = 0;
    while i < n
        invariant
            n == w.len(),
            n > 0,
            w == child_hungers@,
            divisible(cookies, w),
            total_hunger == total(w),
            0 <= i <= n,
            base.len() == i,
            alloc@ == base@,
            rem.len() == i,
            forall|k: int| 0 <= k < i ==> base[k] == base_share(cookies as nat, w, k),
            forall|k: int| 0 <= k < i ==> rem[k] == frac_share(cookies as nat, w, k),
            forall|k: int| 0 <= k < i ==> rem[k] < total_hunger,
            allocated == total(base@),
            allocated <= cookies,
        decreases n - i,
    {
        let p = cookies * child_hungers[i];
        let b = p / total_hunger;
        let m = p % total_hunger;
        proof {
            lemma_total_push(base@, b);
            let nb = base@.push(b);
            let nr = rem@.push(m);
            let wi = w.take(i + 1);
            assert(forall|k: int| 0 <= k < i + 1 ==> wi[k] == w[k]);
            lemma_division_identity(cookies as nat, wi, total_hunger as int, nb, nr);
            lemma_total_prefix(w, i + 1);
            lemma_total_nonneg(nr);
            lemma_total_nonneg(wi);
            let c = cookies as int;
            let tw = total(wi);
            let tb = total(nb);
            let th = total_hunger as int;
            assert(c * tw <= c * th) by (nonlinear_arith)
                requires
                    c >= 0,
                    tw <= th,
            ;
            assert(tb <= c) by (nonlinear_arith)
                requires
                    th > 0,
                    th * tb <= c * th,
            ;
        }
        base.push(b);
        alloc.push(b);
        rem.push(m);
        allocated = allocated + b;
        i = i + 1;
    }
    let leftover = cookies - allocated;
    proof {
        lemma_division_identity(cookies as nat, w, total_hunger as int, base@, rem@);
        lemma_total_bounded(rem@, total_hunger as int);
        lemma_total_nonneg(rem@);
        let th = total_hunger as int;
        let x = leftover as int;
        let tr = total(rem@);
        let nn = n as int;
        assert(th * x == tr) by (nonlinear_arith)
            requires
                cookies * th == th * total(base@) + tr,
                x == cookies - total(base@),
        ;
        assert(total(rem@) == th * x);
        assert(x < nn) by {
            if x >= nn {
                vstd::arithmetic::mul::lemma_mul_inequality(nn, x, th);
            }
        }
    }
    let mut k: usize = 0;
    while k < leftover
        invariant
            n == w.len(),
            w == child_hungers@,
            divisible(cookies, w),
            total_hunger == total(w),
            leftover < n,
            0 <= k <= leftover,
            base.len() == n,
            alloc.len() == n,
            rem.len() == n,
            forall|q: int| 0 <= q < n ==> base[q] == base_share(cookies as nat, w, q),
            forall|q: int| 0 <= q < n ==> rem[q] == frac_share(cookies as nat, w, q),
            forall|q: int| 0 <= q < n ==> alloc[q] == base[q] || alloc[q] == base[q] + 1,
            total(alloc@) == total(base@) + k,
            total(base@) + leftover == cookies,
            total(rem@) == total_hunger * leftover,
            total_hunger > 0,
            forall|q: int| 0 <= q < n ==> rem[q] < total_hunger,
            forall|q: int| 0 <= q < n && alloc[q] > base[q] ==> rem[q] > 0,
            forall|q: int, j: int|
                0 <= q < n && 0 <= j < n && alloc[q] > base[q] && alloc[j] == base[j]
                    ==> #[trigger] outranks(cookies as nat, w, q, j),
        decreases leftover - k,
    {
        proof {
            if forall|q: int| 0 <= q < n ==> alloc[q] == base[q] + 1 {
                lemma_total_all_incremented(alloc@, base@);
            }
        }
        let mut best: usize = n;
        let mut j: usize = 0;
        while j < n
            invariant
                n == w.len(),
                base.len() == n,
                alloc.len() == n,
                rem.len() == n,
                0 <= j <= n,
                forall|q: int| 0 <= q < n ==> rem[q] == frac_share(cookies as nat, w, q),
                best == n ==> forall|q: int| 0 <= q < j ==> alloc[q] != base[q],
                best != n ==> best < j && alloc[best as int] == base[best as int],
                best != n ==> forall|q: int|
                    0 <= q < j && q != best && alloc[q] == base[q] ==> outranks(
                        cookies as nat,
                        w,
                        best as int,
                        q,
                    ),
            decreases n - j,
        {
            if alloc[j] == base[j] {
                if best == n || rem[j] > rem[best] {
                    best = j;
                }
            }
            j = j + 1;
        }
        proof {
            if rem[best as int] == 0 {
                let c = total_hunger - 1;
                assert forall|q: int| 0 <= q < n implies rem[q] <= c * (alloc[q] - base[q]) by {
                    let d = alloc[q] - base[q];
                    if alloc[q] == base[q] {
                        if q != best {
                            assert(outranks(cookies as nat, w, best as int, q));
                        }
                        assert(c * d == 0) by (nonlinear_arith)
                            requires
                                d == 0,
                        ;
                    } else {
                        assert(c * d == c) by (nonlinear_arith)
                            requires
                                d == 1,
                        ;
                    }
                }
                lemma_total_weighted(rem@, alloc@, base@, c);
                let kk = k as int;
                let lo = leftover as int;
                let th = total_hunger as int;
                assert(false) by (nonlinear_arith)
                    requires
                        th * lo <= c * kk,
                        c == th - 1,
                        0 <= kk < lo,
                        th > 0,
                ;
            }
            lemma_total_elem(base@, best as int);
            lemma_total_update(alloc@, best as int, (alloc[best as int] + 1) as usize);
        }
        alloc.set(best, alloc[best] + 1);
        k = k + 1;
    }
    alloc
}

} // verus!
