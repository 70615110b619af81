//! Exact grid-path distances of the form `units + diagonals * sqrt(2)`.
//!
//! A path over the 8-connected grid costs 1 per cardinal step, `sqrt(2)` per
//! diagonal step, plus an integer weight per entered cell. Every such length
//! is therefore `a + b * sqrt(2)` with natural `a` (cardinal steps plus
//! weights) and `b` (diagonal steps). Because `sqrt(2)` is irrational, the
//! pair `(a, b)` determines the length uniquely, and two lengths compare
//! exactly through integer arithmetic alone:
//! `a1 + b1*sqrt(2) < a2 + b2*sqrt(2)` iff `da + db*sqrt(2) < 0` for the
//! differences, which is decided by the signs of `da`, `db` and by comparing
//! `da*da` against `2*db*db`.
//!
//! To reason about this order we use a linear rank: with `lam()` and `mu()`
//! a solution of `mu*mu == 2*lam*lam - 1` (so `mu/lam` is a best rational
//! approximation of `sqrt(2)`) and `lam()` larger than any `u64`, the
//! integer `lam*a + mu*b` is strictly monotone in the real order on all
//! pairs with components in `[0, lam)`. That turns comparisons, totality,
//! transitivity and termination measures into linear facts about ranks.

use vstd::prelude::*;

verus! {

/// An exact distance over the grid: `units + diagonals * sqrt(2)`.
#[derive(Clone, Copy, PartialEq, Eq, Structural, Debug)]
pub struct Distance {
    /// Cardinal steps plus accumulated cell weights.
    pub units: u64,
    /// Diagonal steps.
    pub diagonals: u64,
}

/// The zero distance.
pub open spec fn dist_zero() -> Distance {
    Distance { units: 0, diagonals: 0 }
}

/// Denominator of the rational approximation of `sqrt(2)`: a Pell number
/// exceeding `u64::MAX`, paired with `mu()` below.
pub open spec fn lam() -> int {
    68480406462161287469
}

/// Numerator of the rational approximation of `sqrt(2)`:
/// `mu() * mu() == 2 * lam() * lam() - 1`.
pub open spec fn mu() -> int {
    96845919575610633161
}

/// `a1 + b1*sqrt(2) < a2 + b2*sqrt(2)`, characterised over the integers.
pub open spec fn val_lt(a1: int, b1: int, a2: int, b2: int) -> bool {
    let da = a1 - a2;
    let db = b1 - b2;
    ||| (da < 0 && db <= 0)
    ||| (da <= 0 && db < 0)
    ||| (da < 0 && db > 0 && da * da > 2 * db * db)
    ||| (da > 0 && db < 0 && da * da < 2 * db * db)
}

/// `a1 + b1*sqrt(2) <= a2 + b2*sqrt(2)`.
pub open spec fn val_le(a1: int, b1: int, a2: int, b2: int) -> bool {
    !val_lt(a2, b2, a1, b1)
}

/// The order on stored distances.
pub open spec fn dist_lt(x: Distance, y: Distance) -> bool {
    val_lt(x.units as int, x.diagonals as int, y.units as int, y.diagonals as int)
}

/// `x <= y` on stored distances.
pub open spec fn dist_le(x: Distance, y: Distance) -> bool {
    !dist_lt(y, x)
}

/// Linear rank of a pair: strictly monotone in the real order whenever both
/// `b` components lie in `[0, lam())`, which holds for all `u64` values.
pub open spec fn rank(a: int, b: int) -> int {
    lam() * a + mu() * b
}

/// Rank of a stored distance.
pub open spec fn dist_rank(x: Distance) -> int {
    rank(x.units as int, x.diagonals as int)
}

/// `sqrt(2)` is irrational: `p*p == 2*q*q` has no solution with `q != 0`.
proof fn lemma_sqrt2_irrational(p: nat, q: nat)
    requires
        p * p == 2 * q * q,
    ensures
        q == 0,
    decreases p,
{
    if p == 0 {
        assert(q * q == 0) by (nonlinear_arith)
            requires p == 0, p * p == 2 * q * q;
        assert(q == 0) by (nonlinear_arith)
            requires q * q == 0;
    } else {
        let h = p / 2;
        let r = p % 2;
        assert(p == 2 * h + r && r < 2);
        if r == 1 {
            // an odd square is odd, but 2*q*q is even
            assert(p * p == 4 * (h * h) + 4 * h + 1) by (nonlinear_arith)
                requires p == 2 * h + 1;
            assert(2 * (q * q) == 4 * (h * h) + 4 * h + 1) by (nonlinear_arith)
                requires
                    p * p == 2 * q * q,
                    p * p == 4 * (h * h) + 4 * h + 1;
            assert(false);
        }
        assert(p == 2 * h);
        assert(q * q == 2 * h * h) by (nonlinear_arith)
            requires p == 2 * h, p * p == 2 * q * q;
        assert(q < p) by (nonlinear_arith)
            requires p * p == 2 * q * q, p > 0;
        lemma_sqrt2_irrational(q, h);
        assert(q * q == 0) by (nonlinear_arith)
            requires q * q == 2 * h * h, h == 0;
        assert(q == 0) by (nonlinear_arith)
            requires q * q == 0;
    }
}

/// Totality: two pairs that are not ordered either way are equal.
pub proof fn lemma_val_total(a1: int, b1: int, a2: int, b2: int)
    requires
        !val_lt(a1, b1, a2, b2),
        !val_lt(a2, b2, a1, b1),
    ensures
        a1 == a2,
        b1 == b2,
{
    let da = a1 - a2;
    let db = b1 - b2;
    if da == 0 {
        assert(db == 0);
    } else if da < 0 {
        // from the first hypothesis: db > 0 and da*da <= 2*db*db;
        // from the second, on the negated differences: da*da >= 2*db*db
        assert(db > 0);
        assert(da * da <= 2 * db * db);
        assert((-da) * (-da) >= 2 * (-db) * (-db));
        let p = (-da) as nat;
        let q = db as nat;
        assert(p * p == 2 * q * q) by (nonlinear_arith)
            requires
                da * da <= 2 * db * db,
                (-da) * (-da) >= 2 * (-db) * (-db),
                p == -da,
                q == db,
                da < 0,
                db > 0;
        lemma_sqrt2_irrational(p, q);
        assert(false);
    } else {
        assert(db < 0);
        assert(da * da >= 2 * db * db);
        assert((-da) * (-da) <= 2 * (-db) * (-db));
        let p = da as nat;
        let q = (-db) as nat;
        assert(p * p == 2 * q * q) by (nonlinear_arith)
            requires
                da * da >= 2 * db * db,
                (-da) * (-da) <= 2 * (-db) * (-db),
                p == da,
                q == -db,
                da > 0,
                db < 0;
        lemma_sqrt2_irrational(p, q);
        assert(false);
    }
}

/// Strict monotonicity of the rank in the real order, for pairs whose `b`
/// components lie in `[0, lam())`.
pub proof fn lemma_rank_mono(a1: int, b1: int, a2: int, b2: int)
    requires
        val_lt(a1, b1, a2, b2),
        0 <= b1 < lam(),
        0 <= b2 < lam(),
    ensures
        rank(a1, b1) < rank(a2, b2),
{
    let l = lam();
    let m = mu();
    assert(m * m == 2 * l * l - 1) by (nonlinear_arith)
        requires l == 68480406462161287469, m == 96845919575610633161;
    let da = a1 - a2;
    let db = b1 - b2;
    assert(-l < db < l);
    if da <= 0 && db <= 0 {
        assert(l * da + m * db < 0) by (nonlinear_arith)
            requires
                da <= 0,
                db <= 0,
                !(da == 0 && db == 0),
                l > 0,
                m > 0;
    } else if da < 0 && db > 0 {
        // da*da > 2*db*db, so l*(-da) > m*db
        assert(da * da >= 2 * db * db + 1);
        assert(l * da + m * db < 0) by (nonlinear_arith)
            requires
                da < 0,
                db > 0,
                da * da >= 2 * db * db + 1,
                m * m == 2 * l * l - 1,
                l > 0,
                m > 0;
    } else {
        // da > 0, db < 0, da*da < 2*db*db, |db| < l, so l*da < m*(-db)
        assert(da > 0 && db < 0);
        assert(da * da <= 2 * db * db - 1);
        assert(l * da + m * db < 0) by (nonlinear_arith)
            requires
                da > 0,
                db < 0,
                -l < db,
                da * da <= 2 * db * db - 1,
                m * m == 2 * l * l - 1,
                l > 0,
                m > 0;
    }
    assert(rank(a1, b1) - rank(a2, b2) == l * da + m * db) by (nonlinear_arith)
        requires
            rank(a1, b1) == l * a1 + m * b1,
            rank(a2, b2) == l * a2 + m * b2,
            da == a1 - a2,
            db == b1 - b2;
}

/// The order and the rank agree on pairs with `b` components in `[0, lam())`.
pub proof fn lemma_lt_iff_rank(a1: int, b1: int, a2: int, b2: int)
    requires
        0 <= b1 < lam(),
        0 <= b2 < lam(),
    ensures
        val_lt(a1, b1, a2, b2) <==> rank(a1, b1) < rank(a2, b2),
        val_le(a1, b1, a2, b2) <==> rank(a1, b1) <= rank(a2, b2),
        (a1 == a2 && b1 == b2) <==> rank(a1, b1) == rank(a2, b2),
{
    if val_lt(a1, b1, a2, b2) {
        lemma_rank_mono(a1, b1, a2, b2);
    }
    if val_lt(a2, b2, a1, b1) {
        lemma_rank_mono(a2, b2, a1, b1);
    }
    if !val_lt(a1, b1, a2, b2) && !val_lt(a2, b2, a1, b1) {
        lemma_val_total(a1, b1, a2, b2);
    }
}

/// The order and the rank agree on stored distances, unconditionally:
/// every `u64` is below `lam()`.
pub proof fn lemma_dist_order(x: Distance, y: Distance)
    ensures
        dist_lt(x, y) <==> dist_rank(x) < dist_rank(y),
        dist_le(x, y) <==> dist_rank(x) <= dist_rank(y),
        (x == y) <==> dist_rank(x) == dist_rank(y),
{
    lemma_lt_iff_rank(x.units as int, x.diagonals as int, y.units as int, y.diagonals as int);
}

/// Exact comparison of stored distances.
///
/// The squares are computed in `u128`: `da <= u64::MAX`, so `da*da` fits,
/// and `da*da` against `2*db*db` is decided as `da*da - db*db` against
/// `db*db` to avoid the doubled product.
pub fn dist_cmp_lt(x: &Distance, y: &Distance) -> (r: bool)
    ensures
        r == dist_lt(*x, *y),
{
    if x.units <= y.units && x.diagonals <= y.diagonals {
        x.units < y.units || x.diagonals < y.diagonals
    } else if x.units >= y.units && x.diagonals >= y.diagonals {
        false
    } else if x.units < y.units {
        // da < 0, db > 0: strictly less iff da*da > 2*db*db
        let da = (y.units - x.units) as u128;
        let db = (x.diagonals - y.diagonals) as u128;
        proof {
            assert((da as int) * (da as int) <= u128::MAX && (db as int) * (db as int)
                <= u128::MAX) by (nonlinear_arith)
                requires
                    0 <= (da as int) && (da as int) <= u64::MAX,
                    0 <= (db as int) && (db as int) <= u64::MAX;
        }
        let da2 = da * da;
        let db2 = db * db;
        proof {
            let dai = x.units as int - y.units as int;
            let dbi = x.diagonals as int - y.diagonals as int;
            assert(da2 as int == dai * dai && 2 * dbi * dbi == 2 * (db2 as int))
                by (nonlinear_arith)
                requires
                    da as int == -dai,
                    db as int == dbi,
                    da2 == da * da,
                    db2 == db * db;
        }
        if da2 > db2 {
            da2 - db2 > db2
        } else {
            false
        }
    } else {
        // da > 0, db < 0: strictly less iff da*da < 2*db*db
        let da = (x.units - y.units) as u128;
        let db = (y.diagonals - x.diagonals) as u128;
        proof {
            assert((da as int) * (da as int) <= u128::MAX && (db as int) * (db as int)
                <= u128::MAX) by (nonlinear_arith)
                requires
                    0 <= (da as int) && (da as int) <= u64::MAX,
                    0 <= (db as int) && (db as int) <= u64::MAX;
        }
        let da2 = da * da;
        let db2 = db * db;
        proof {
            let dai = x.units as int - y.units as int;
            let dbi = x.diagonals as int - y.diagonals as int;
            assert(da2 as int == dai * dai && 2 * dbi * dbi == 2 * (db2 as int))
                by (nonlinear_arith)
                requires
                    da as int == dai,
                    db as int == -dbi,
                    da2 == da * da,
                    db2 == db * db;
        }
        if da2 > db2 {
            da2 - db2 < db2
        } else {
            db2 > 0
        }
    }
}

} // verus!
