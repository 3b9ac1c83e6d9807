use vstd::prelude::*;

verus! {

/// The sum of a sequence of `u32`, as an unbounded integer.
pub open spec fn total(s: Seq<u32>) -> int
    decreases s.len(),
{
    if s.len() == 0 {
        0
    } else {
        total(s.drop_last()) + s.last()
    }
}

/// The share of element `i` when `x` is spread over `n` slots: `x / n`, and
/// one more for each of the first `x % n` slots.
pub open spec fn share(x: u32, n: u32, i: int) -> int {
    (x / n) as int + if i < (x % n) as int { 1int } else { 0int }
}

proof fn lemma_total_push(s: Seq<u32>, v: u32)
    ensures
        total(s.push(v)) == total(s) + v,
{
    assert(s.push(v).drop_last() =~= s);
}

proof fn lemma_total_of_shares(s: Seq<u32>, x: u32, n: u32, k: int)
    requires
        n > 0,
        s.len() == n,
        0 <= k <= n,
        forall|i: int| 0 <= i < n ==> s[i] == share(x, n, i),
    ensures
        total(s.take(k)) == k * (x / n) as int + if k < (x % n) as int { k } else { (x % n) as int },
    decreases k,
{
    if k > 0 {
        lemma_total_of_shares(s, x, n, k - 1);
        assert(s.take(k) =~= s.take(k - 1).push(s[k - 1]));
        lemma_total_push(s.take(k - 1), s[k - 1]);
        assert(k * (x / n) as int == (k - 1) * (x / n) as int + (x / n) as int) by (nonlinear_arith);
    } else {
        assert(s.take(0) =~= Seq::<u32>::empty());
    }
}

/// Spreads `x` over `n` slots as evenly as possible: every slot gets
/// `x / n`, and the first `x % n` slots one more (the divisor is `n` taken
/// as a `u32`).
pub fn distribute(x: u32, n: usize) -> (result: Vec<u32>)
    requires
        (n as u32) > 0,
    ensures
        result.len() == n,
        forall|i: int| 0 <= i < n ==> #[trigger] result[i] == share(x, n as u32, i),
        n <= u32::MAX ==> total(result@) == x,
{
    let d = n as u32;
    let quotient = x / d;
    let remainder = (x % d) as usize;
    let mut result: Vec<u32> = Vec::new();
    for i in 0..n
        invariant
            result.len() == i,
            d == n as u32,
            d > 0,
            quotient == x / d,
            remainder == (x % d) as usize,
            forall|k: int| 0 <= k < i ==> #[trigger] result[k] == quotient,
    {
        result.push(quotient);
    }
    proof {
        assert(remainder <= n) by {
            assert((x % d) < d);
            assert(d as int <= n) by {
                assert(n as u32 <= n) by (bit_vector);
            }
        }
    }
    for i in 0..remainder
        invariant
            result.len() == n,
            remainder <= n,
            d == n as u32,
            d > 0,
            quotient == x / d,
            remainder == (x % d) as usize,
            forall|k: int| 0 <= k < i ==> #[trigger] result[k] == quotient + 1,
            forall|k: int| i <= k < n ==> #[trigger] result[k] == quotient,
    {
        proof {
            assert(quotient < u32::MAX) by {
                // A remainder exists only when the divisor exceeds one.
                assert(d > 1);
                assert(x / d <= x / 2) by (nonlinear_arith)
                    requires d > 1;
            }
        }
        let v = result[i] + 1;
        result.set(i, v);
    }
    proof {
        if n <= u32::MAX {
            lemma_distribute_total(result@, x, d);
        }
    }
    result
}

/// Spreading `x` over `n` slots keeps the total: the shares add up to `x`.
pub proof fn lemma_distribute_total(s: Seq<u32>, x: u32, n: u32)
    requires
        n > 0,
        s.len() == n,
        forall|i: int| 0 <= i < n ==> s[i] == share(x, n, i),
    ensures
        total(s) == x,
{
    lemma_total_of_shares(s, x, n, n as int);
    assert(s.take(n as int) =~= s);
    assert((x % n) < n);
    assert(n * (x / n) as int + (x % n) as int == x) by (nonlinear_arith)
        requires n > 0;
}

} // verus!
