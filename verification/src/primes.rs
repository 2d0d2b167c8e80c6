use vstd::prelude::*;

verus! {

/// `n` is at least 2 and has no divisor between 2 and `n - 1`.
pub open spec fn is_prime_number(n: int) -> bool {
    n >= 2 && forall|d: int| 2 <= d < n ==> #[trigger] (n % d) != 0
}

/// A divisor `d` of `n` with `d < n` has a cofactor `n / d` that is also a
/// divisor, at least 2, and at most `n / d`.
proof fn lemma_cofactor(n: int, d: int)
    requires
        2 <= d < n,
        n % d == 0,
    ensures
        n % (n / d) == 0,
        2 <= n / d,
        (n / d) * d == n,
{
    vstd::arithmetic::div_mod::lemma_fundamental_div_mod(n, d);
    let q = n / d;
    assert(n == d * q);
    assert(q >= 2) by (nonlinear_arith)
        requires
            n == d * q,
            2 <= d < n,
    ;
    assert(q * d == n) by (nonlinear_arith)
        requires
            n == d * q,
    ;
    vstd::arithmetic::div_mod::lemma_mod_multiples_basic(d, q);
    assert(d * q == q * d) by (nonlinear_arith);
}

/// Whether `n` is prime, by trial division up to the square root of `n`.
pub fn is_prime(n: u64) -> (b: bool)
    ensures
        b == is_prime_number(n as int),
{
    if n < 2 {
        return false;
    }
    let mut i: u64 = 2;
    while i <= n / i
        invariant
            2 <= i <= n,
            forall|d: int| 2 <= d < i ==> #[trigger] ((n as int) % d) != 0,
        decreases n - i,
    {
        if n % i == 0 {
            assert(i < n) by (nonlinear_arith)
                requires
                    2 <= i,
                    i <= n / i,
            ;
            assert(((n as int) % (i as int)) == 0);
            return false;
        }
        assert(i + 1 <= n) by (nonlinear_arith)
            requires
                2 <= i,
                i <= n / i,
        ;
        i += 1;
    }
    proof {
        assert forall|d: int| 2 <= d < n implies #[trigger] ((n as int) % d) != 0 by {
            if d >= i && (n as int) % d == 0 {
                lemma_cofactor(n as int, d);
                let q = (n as int) / d;
                assert(q < i) by (nonlinear_arith)
                    requires
                        q * d == n,
                        d >= i,
                        i > n / i,
                        i >= 2,
                ;
                assert((n as int) % q != 0);
            }
        }
    }
    true
}

} // verus!

verus! {

/// `x`, `x + step`, `x + 2 * step`, ... up to `limit`.
pub open spec fn stride_from(x: int, limit: int, step: int) -> Seq<int>
    decreases limit - x + step,
    when step > 0
{
    if x > limit {
        Seq::empty()
    } else {
        seq![x] + stride_from(x + step, limit, step)
    }
}

/// The primes among `first`, `first + step`, `first + 2 * step`, ... up to
/// `limit`, in increasing order: the share of the numbers that one worker of
/// a strided search checks.
pub fn primes_in_stride(first: u64, limit: u64, step: u64) -> (r: Vec<u64>)
    requires
        step > 0,
    ensures
        r@.map_values(|p: u64| p as int) == stride_from(first as int, limit as int, step as int).filter(
            |p: int| is_prime_number(p),
        ),
{
    let ghost pred = |p: int| is_prime_number(p);
    let ghost whole = stride_from(first as int, limit as int, step as int);
    let mut out: Vec<u64> = Vec::new();
    let mut x: u64 = first;
    loop
        invariant_except_break
            step > 0,
            pred == (|p: int| is_prime_number(p)),
            whole == stride_from(first as int, limit as int, step as int),
            out@.map_values(|p: u64| p as int) + stride_from(x as int, limit as int, step as int).filter(pred)
                == whole.filter(pred),
        ensures
            out@.map_values(|p: u64| p as int) == whole.filter(pred),
        decreases (limit as int) + (step as int) - (x as int),
    {
        if x > limit {
            proof {
                lemma_filter_empty(stride_from(x as int, limit as int, step as int), pred);
                assert(out@.map_values(|p: u64| p as int) + Seq::<int>::empty() =~= out@.map_values(
                    |p: u64| p as int,
                ));
            }
            break;
        }
        let ghost rest = stride_from(x as int + step as int, limit as int, step as int);
        proof {
            lemma_filter_cons(x as int, rest, pred);
        }
        let ghost prev = out@;
        if is_prime(x) {
            out.push(x);
            assert(out@.map_values(|p: u64| p as int) =~= prev.map_values(|p: u64| p as int).push(x as int));
        } else {
            assert(out@.map_values(|p: u64| p as int) =~= prev.map_values(|p: u64| p as int));
        }
        assert(out@.map_values(|p: u64| p as int) + rest.filter(pred) =~= prev.map_values(|p: u64| p as int)
            + stride_from(x as int, limit as int, step as int).filter(pred));
        match x.checked_add(step) {
            Some(next) => {
                x = next;
            },
            None => {
                proof {
                    assert(rest =~= Seq::<int>::empty());
                    lemma_filter_empty(rest, pred);
                    assert(out@.map_values(|p: u64| p as int) + Seq::<int>::empty() =~= out@.map_values(
                        |p: u64| p as int,
                    ));
                }
                break;
            },
        }
    }
    out
}

/// Filtering a sequence that starts with `x` keeps `x` exactly when it
/// passes, then filters the rest.
proof fn lemma_filter_cons(x: int, rest: Seq<int>, pred: spec_fn(int) -> bool)
    ensures
        (seq![x] + rest).filter(pred) == (if pred(x) { seq![x] } else { Seq::<int>::empty() }) + rest.filter(pred),
{
    Seq::filter_distributes_over_add(seq![x], rest, pred);
    reveal_with_fuel(Seq::<_>::filter, 2);
    assert(seq![x].drop_last() =~= Seq::<int>::empty());
    if pred(x) {
        assert(Seq::<int>::empty().push(x) =~= seq![x]);
    }
}

proof fn lemma_filter_empty(s: Seq<int>, pred: spec_fn(int) -> bool)
    requires
        s.len() == 0,
    ensures
        s.filter(pred) == Seq::<int>::empty(),
{
    reveal_with_fuel(Seq::<_>::filter, 1);
    assert(s.filter(pred) =~= Seq::<int>::empty());
}

/// `n` is visited by the stride from `x` exactly when it lies between `x` and
/// `limit` and differs from `x` by a multiple of `step`.
pub proof fn lemma_stride_contains(x: int, limit: int, step: int, n: int)
    requires
        step > 0,
    ensures
        stride_from(x, limit, step).contains(n) <==> (x <= n <= limit && (n - x) % step == 0),
    decreases limit - x + step,
{
    if x <= limit {
        lemma_stride_contains(x + step, limit, step, n);
        let rest = stride_from(x + step, limit, step);
        assert(stride_from(x, limit, step) == seq![x] + rest);
        if n - x >= step {
            vstd::arithmetic::div_mod::lemma_mod_sub_multiples_vanish(n - x, step);
            assert((n - x - step) % step == (n - x) % step);
        }
        if x <= n < x + step {
            vstd::arithmetic::div_mod::lemma_small_mod((n - x) as nat, step as nat);
        }
        if stride_from(x, limit, step).contains(n) {
            if n != x {
                let k = choose|k: int| 0 <= k < stride_from(x, limit, step).len() && stride_from(x, limit, step)[k] == n;
                assert(rest[k - 1] == n);
            }
        }
        if x <= n <= limit && (n - x) % step == 0 {
            if n == x {
                assert(stride_from(x, limit, step)[0] == n);
            } else {
                let k = choose|k: int| 0 <= k < rest.len() && rest[k] == n;
                assert(stride_from(x, limit, step)[k + 1] == n);
            }
        }
    }
}

/// Splitting the range `2..=limit` among `step` workers, worker `i`
/// starting at `2 + i`, visits every number exactly once: `n` by the
/// worker `(n - 2) % step` and by no other.
pub proof fn law_strides_partition(limit: int, step: int, n: int, i: int)
    requires
        step > 0,
        2 <= n <= limit,
        0 <= i < step,
    ensures
        stride_from(2 + i, limit, step).contains(n) <==> i == (n - 2) % step,
{
    lemma_stride_contains(2 + i, limit, step, n);
    let w = (n - 2) % step;
    vstd::arithmetic::div_mod::lemma_fundamental_div_mod(n - 2, step);
    if i == w {
        assert(n - (2 + i) == step * ((n - 2) / step));
        vstd::arithmetic::div_mod::lemma_mod_multiples_basic((n - 2) / step, step);
        assert(step * ((n - 2) / step) == ((n - 2) / step) * step) by (nonlinear_arith);
    } else {
        if 2 + i <= n && (n - (2 + i)) % step == 0 {
            vstd::arithmetic::div_mod::lemma_fundamental_div_mod(n - 2 - i, step);
            let q1 = (n - 2) / step;
            let q2 = (n - 2 - i) / step;
            assert(i - w == step * (q1 - q2)) by (nonlinear_arith)
                requires
                    n - 2 == step * q1 + w,
                    n - 2 - i == step * q2,
            ;
            assert(false) by (nonlinear_arith)
                requires
                    i - w == step * (q1 - q2),
                    0 <= i < step,
                    0 <= w < step,
                    i != w,
            ;
        }
    }
}

} // verus!
