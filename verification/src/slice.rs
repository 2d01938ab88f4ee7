//! Level-1 vector kernels: dot product, scaled accumulate, scale-and-add,
//! zero, copy and subtract, all over equal-length buffers.

use crate::fits_i64;
use vstd::prelude::*;

verus! {

/// Sum of the first `n` products `a[i] * b[i]`, as an unbounded integer.
pub open spec fn dot_prefix(a: Seq<i64>, b: Seq<i64>, n: int) -> int
    decreases n,
{
    if n <= 0 {
        0
    } else {
        dot_prefix(a, b, n - 1) + a[n - 1] * b[n - 1]
    }
}

/// Dot product of two equal-length vectors.
#[verifier::loop_isolation(false)]
pub fn dot(v0: &Vec<i64>, v1: &Vec<i64>) -> (r: i64)
    requires
        v0@.len() == v1@.len(),
        forall|i: int| 0 <= i < v0@.len() ==> fits_i64(v0@[i] * v1@[i]),
        forall|n: int| 0 <= n <= v0@.len() ==> fits_i64(dot_prefix(v0@, v1@, n)),
    ensures
        r == dot_prefix(v0@, v1@, v0@.len() as int),
{
    let mut sum: i64 = 0;
    let mut i: usize = 0;
    while i < v0.len()
        invariant
            i <= v0@.len(),
            sum == dot_prefix(v0@, v1@, i as int),
        decreases v0@.len() - i,
    {
        assert(dot_prefix(v0@, v1@, i + 1) == dot_prefix(v0@, v1@, i as int) + v0@[i as int] * v1@[i as int]);
        sum = sum + v0[i] * v1[i];
        i = i + 1;
    }
    sum
}

/// Scaled accumulate: `u[i] += alpha * p[i]` for every index.
#[verifier::loop_isolation(false)]
pub fn add_scaled_vector(u: &mut Vec<i64>, alpha: i64, p: &Vec<i64>)
    requires
        old(u)@.len() == p@.len(),
        forall|i: int|
            0 <= i < p@.len() ==> fits_i64(alpha * p@[i]) && fits_i64(
                old(u)@[i] + alpha * p@[i],
            ),
    ensures
        final(u)@.len() == p@.len(),
        forall|i: int| 0 <= i < p@.len() ==> final(u)@[i] == old(u)@[i] + alpha * p@[i],
{
    let mut i: usize = 0;
    while i < p.len()
        invariant
            i <= p@.len(),
            u@.len() == p@.len(),
            forall|j: int| 0 <= j < i ==> u@[j] == old(u)@[j] + alpha * p@[j],
            forall|j: int| i <= j < p@.len() ==> u@[j] == old(u)@[j],
        decreases p@.len() - i,
    {
        let t: i64 = alpha * p[i];
        let s: i64 = u[i] + t;
        u.set(i, s);
        i = i + 1;
    }
}

/// Scale-and-add: `p[i] = r[i] + beta * p[i]` for every index; the result
/// overwrites `p`, reading the old `p` and `r`.
#[verifier::loop_isolation(false)]
pub fn scale_and_add_vec(p: &mut Vec<i64>, beta: i64, r: &Vec<i64>)
    requires
        old(p)@.len() == r@.len(),
        forall|i: int| 0 <= i < r@.len() ==> fits_i64(beta * #[trigger] old(p)@[i]),
        forall|i: int| 0 <= i < r@.len() ==> fits_i64(r@[i] + beta * #[trigger] old(p)@[i]),
    ensures
        final(p)@.len() == r@.len(),
        forall|i: int| 0 <= i < r@.len() ==> final(p)@[i] == r@[i] + beta * old(p)@[i],
{
    let mut i: usize = 0;
    while i < r.len()
        invariant
            i <= r@.len(),
            p@.len() == r@.len(),
            forall|j: int| 0 <= j < i ==> p@[j] == r@[j] + beta * old(p)@[j],
            forall|j: int| i <= j < r@.len() ==> p@[j] == old(p)@[j],
        decreases r@.len() - i,
    {
        assert(p@[i as int] == old(p)@[i as int]);
        assert(fits_i64(beta * old(p)@[i as int]) && fits_i64(
            r@[i as int] + beta * old(p)@[i as int],
        ));
        let t: i64 = beta * p[i];
        let s: i64 = r[i] + t;
        p.set(i, s);
        i = i + 1;
    }
}

/// Resets every entry to the additive identity.
#[verifier::loop_isolation(false)]
pub fn set_zero(p: &mut Vec<i64>)
    ensures
        final(p)@.len() == old(p)@.len(),
        forall|i: int| 0 <= i < final(p)@.len() ==> final(p)@[i] == 0i64,
{
    let mut i: usize = 0;
    while i < p.len()
        invariant
            i <= p@.len(),
            p@.len() == old(p)@.len(),
            forall|j: int| 0 <= j < i ==> p@[j] == 0i64,
        decreases p@.len() - i,
    {
        p.set(i, 0);
        i = i + 1;
    }
}

/// Copies `u` into `p`, element by element.
#[verifier::loop_isolation(false)]
pub fn copy(p: &mut Vec<i64>, u: &Vec<i64>)
    requires
        old(p)@.len() == u@.len(),
    ensures
        final(p)@ == u@,
{
    let mut i: usize = 0;
    while i < u.len()
        invariant
            i <= u@.len(),
            p@.len() == u@.len(),
            forall|j: int| 0 <= j < i ==> p@[j] == u@[j],
        decreases u@.len() - i,
    {
        p.set(i, u[i]);
        i = i + 1;
    }
    assert(p@ =~= u@);
}

/// Element-wise difference: `p[i] = u[i] - v[i]` for every index.
#[verifier::loop_isolation(false)]
pub fn sub(p: &mut Vec<i64>, u: &Vec<i64>, v: &Vec<i64>)
    requires
        old(p)@.len() == u@.len(),
        v@.len() == u@.len(),
        forall|i: int| 0 <= i < u@.len() ==> fits_i64(u@[i] - v@[i]),
    ensures
        final(p)@.len() == u@.len(),
        forall|i: int| 0 <= i < u@.len() ==> final(p)@[i] == u@[i] - v@[i],
{
    let mut i: usize = 0;
    while i < u.len()
        invariant
            i <= u@.len(),
            p@.len() == u@.len(),
            forall|j: int| 0 <= j < i ==> p@[j] == u@[j] - v@[j],
        decreases u@.len() - i,
    {
        let d: i64 = u[i] - v[i];
        p.set(i, d);
        i = i + 1;
    }
}

} // verus!
