//! Squared Euclidean distances over integer coordinates.
use vstd::prelude::*;

verus! {

/// Largest magnitude of a coordinate.
pub const MAX_COORD: i64 = 16777216;

/// Largest number of dimensions of a point.
pub const MAX_DIM: usize = 64;

/// Largest number of observations in one data set.
pub const MAX_POINTS: usize = 65536;

/// Every coordinate of `p` lies in `[-bound, bound]`.
pub open spec fn coords_within(p: Seq<i64>, bound: int) -> bool {
    forall|i: int| 0 <= i < p.len() ==> -bound <= #[trigger] p[i] <= bound
}

/// `sum over i < x.len() of (c * x[i] - s[i])^2`: the squared distance from `x`
/// to the point `s / c`, scaled by `c^2`.
pub open spec fn scaled_sq_dist(x: Seq<i64>, s: Seq<i64>, c: int) -> int
    decreases x.len(),
{
    if x.len() == 0 {
        0
    } else {
        let i = x.len() - 1;
        scaled_sq_dist(x.drop_last(), s, c) + (c * x[i] - s[i]) * (c * x[i] - s[i])
    }
}

/// The squared Euclidean distance between two points of equal length.
pub open spec fn sq_dist_spec(a: Seq<i64>, b: Seq<i64>) -> int {
    scaled_sq_dist(a, b, 1)
}

proof fn lemma_term_bound(x: int, s: int, c: int)
    requires
        0 <= c <= MAX_POINTS,
        -MAX_COORD <= x <= MAX_COORD,
        -c * MAX_COORD <= s <= c * MAX_COORD,
    ensures
        0 <= (c * x - s) * (c * x - s) <= 0x400000000000000000000,
{
    assert(-c * MAX_COORD <= c * x <= c * MAX_COORD) by (nonlinear_arith)
        requires
            0 <= c,
            -MAX_COORD <= x <= MAX_COORD,
    ;
    assert(c * MAX_COORD <= 0x10000000000) by (nonlinear_arith)
        requires
            0 <= c <= MAX_POINTS,
    ;
    let d = c * x - s;
    assert(-0x20000000000 <= d <= 0x20000000000);
    assert(0 <= d * d <= 0x400000000000000000000) by (nonlinear_arith)
        requires
            -0x20000000000 <= d <= 0x20000000000,
    ;
}

/// The scaled squared distance from `x` to `s / c` (see `scaled_sq_dist`).
pub fn scaled_sq(x: &Vec<i64>, s: &Vec<i64>, c: usize) -> (r: u128)
    requires
        x@.len() <= s@.len(),
        x@.len() <= MAX_DIM,
        c <= MAX_POINTS,
        coords_within(x@, MAX_COORD as int),
        coords_within(s@, c * MAX_COORD),
    ensures
        r == scaled_sq_dist(x@, s@, c as int),
        r <= 0x10000000000000000000000,
{
    let mut acc: u128 = 0;
    let mut i: usize = 0;
    while i < x.len()
        invariant
            i <= x@.len(),
            x@.len() <= s@.len(),
            x@.len() <= MAX_DIM,
            c <= MAX_POINTS,
            coords_within(x@, MAX_COORD as int),
            coords_within(s@, c * MAX_COORD),
            acc == scaled_sq_dist(x@.take(i as int), s@, c as int),
            acc <= i * 0x400000000000000000000,
        decreases x@.len() - i,
    {
        let xi = x[i];
        let si = s[i];
        proof {
            lemma_term_bound(xi as int, si as int, c as int);
            assert(c * MAX_COORD <= 0x10000000000) by (nonlinear_arith)
                requires
                    c <= MAX_POINTS,
            ;
            assert(-0x10000000000 <= (c as int) * (xi as int) <= 0x10000000000) by (nonlinear_arith)
                requires
                    c <= MAX_POINTS,
                    -MAX_COORD <= xi <= MAX_COORD,
            ;
        }
        let d: i128 = (c as i128) * (xi as i128) - (si as i128);
        let term: u128 = (d * d) as u128;
        proof {
            assert(x@.take(i + 1).drop_last() =~= x@.take(i as int));
        }
        acc = acc + term;
        i = i + 1;
    }
    proof {
        assert(x@.take(i as int) =~= x@);
    }
    acc
}

/// The squared Euclidean distance between `a` and `b`; `None` when their
/// lengths differ.
pub fn sq_dist(a: &Vec<i64>, b: &Vec<i64>) -> (r: Option<u128>)
    requires
        a@.len() <= MAX_DIM,
        coords_within(a@, MAX_COORD as int),
        coords_within(b@, MAX_COORD as int),
    ensures
        r is None <==> a@.len() != b@.len(),
        r matches Some(v) ==> v == sq_dist_spec(a@, b@),
{
    if a.len() != b.len() {
        return None;
    }
    Some(scaled_sq(a, b, 1))
}

} // verus!
