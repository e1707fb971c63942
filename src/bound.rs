use vstd::prelude::*;
use crate::relax::{Entry, sel_sum, stop, lp_num, lp_den, lemma_stop, lemma_sum_split, lemma_sum_bounds};

verus! {

/// An exact non-negative rational `whole + rem / den`, with `rem < den`.
#[derive(Clone, Copy, Debug)]
pub struct UpperBound {
    pub whole: u64,
    pub rem: u64,
    pub den: u64,
}

impl UpperBound {
    pub open spec fn wf(self) -> bool {
        self.den > 0 && self.rem < self.den
    }

    /// The numerator over `den`.
    pub open spec fn num(self) -> int {
        self.whole * self.den + self.rem
    }

    /// `self >= o` as rationals.
    pub open spec fn spec_ge(self, o: UpperBound) -> bool {
        self.num() * o.den >= o.num() * self.den
    }

    /// `self >= x` for an integer `x`.
    pub open spec fn spec_at_least(self, x: int) -> bool {
        self.num() >= x * self.den
    }

    pub fn ge(&self, o: &UpperBound) -> (r: bool)
        requires
            self.wf(),
            o.wf(),
        ensures
            r == self.spec_ge(*o),
    {
        let ghost (wa, ra, da) = (self.whole as int, self.rem as int, self.den as int);
        let ghost (wb, rb, db) = (o.whole as int, o.rem as int, o.den as int);
        if self.whole != o.whole {
            proof {
                if wa > wb {
                    assert((wa * da + ra) * db > (wb * db + rb) * da) by (nonlinear_arith)
                        requires
                            wa > wb >= 0,
                            0 <= ra < da,
                            0 <= rb < db,
                    ;
                } else {
                    assert((wa * da + ra) * db < (wb * db + rb) * da) by (nonlinear_arith)
                        requires
                            wb > wa >= 0,
                            0 <= ra < da,
                            0 <= rb < db,
                    ;
                }
            }
            self.whole > o.whole
        } else {
            proof {
                assert((wa * da + ra) * db - (wb * db + rb) * da == ra * db - rb * da)
                    by (nonlinear_arith)
                    requires
                        wa == wb,
                ;
            }
            let x: u128 = self.rem as u128;
            let y: u128 = o.den as u128;
            let z: u128 = o.rem as u128;
            let v: u128 = self.den as u128;
            proof {
                lemma_u64_product(x, y);
                lemma_u64_product(z, v);
            }
            x * y >= z * v
        }
    }

    pub fn at_least(&self, x: u64) -> (r: bool)
        requires
            self.wf(),
        ensures
            r == self.spec_at_least(x as int),
    {
        let ghost (w, rm, d) = (self.whole as int, self.rem as int, self.den as int);
        proof {
            if w >= x {
                assert(w * d + rm >= x * d) by (nonlinear_arith)
                    requires
                        w >= x,
                        rm >= 0,
                        d > 0,
                ;
            } else {
                assert(w * d + rm < x * d) by (nonlinear_arith)
                    requires
                        w < x,
                        0 <= rm < d,
                ;
            }
        }
        self.whole >= x
    }

    /// The bound raised by the integer `p`.
    pub fn plus(&self, p: u64) -> (r: UpperBound)
        requires
            self.wf(),
            self.whole + p <= u64::MAX,
        ensures
            r.wf(),
            r.den == self.den,
            r.num() == self.num() + p * self.den,
            r.whole == self.whole + p,
    {
        proof {
            assert((self.whole + p) * self.den + self.rem == self.whole * self.den + self.rem + p
                * self.den) by (nonlinear_arith);
        }
        UpperBound { whole: self.whole + p, rem: self.rem, den: self.den }
    }
}

pub proof fn lemma_u64_product(a: u128, b: u128)
    requires
        a <= u64::MAX,
        b <= u64::MAX,
    ensures
        a * b <= u128::MAX,
{
    assert(a * b <= (u64::MAX as int) * (u64::MAX as int)) by (nonlinear_arith)
        requires
            0 <= a <= u64::MAX,
            0 <= b <= u64::MAX,
    ;
}

/// The fractional relaxation bound of the entries from `from` on, with
/// capacity `capacity`: entries are taken whole while they fit, then the
/// first one that does not fit is taken for the capacity left, and the fill
/// stops.
pub fn bound(sorted: &Vec<Entry>, from: usize, capacity: u64) -> (r: UpperBound)
    requires
        from <= sorted@.len(),
        sel_sum(sorted@, Set::full(), from as int, sorted@.len() as int, false) <= u64::MAX,
    ensures
        r.wf(),
        r.den == lp_den(sorted@, from as int, capacity as int),
        r.num() == lp_num(sorted@, from as int, capacity as int),
        r.whole <= sel_sum(sorted@, Set::full(), from as int, sorted@.len() as int, false),
{
    let ghost s = sorted@;
    let ghost n = s.len() as int;
    let ghost k = from as int;
    let ghost c = capacity as int;
    let ghost full = Set::<usize>::full();
    proof {
        lemma_stop(s, k, c);
    }
    let mut j: usize = from;
    let mut cap: u64 = capacity;
    let mut whole: u64 = 0;
    while j < sorted.len() && sorted[j].2 <= cap
        invariant
            k <= j <= n,
            n == sorted@.len(),
            s == sorted@,
            full == Set::<usize>::full(),
            stop(s, j as int, cap as int) == stop(s, k, c),
            whole == sel_sum(s, full, k, j as int, false),
            cap == c - sel_sum(s, full, k, j as int, true),
            sel_sum(s, full, k, n, false) <= u64::MAX,
        decreases n - j,
    {
        proof {
            assert(Set::<usize>::full().contains(s[j as int].0));
            lemma_sum_split(s, full, k, j as int + 1, n, false);
            lemma_sum_bounds(s, full, j as int + 1, n, false);
        }
        cap = cap - sorted[j].2;
        whole = whole + sorted[j].1;
        j = j + 1;
    }
    proof {
        lemma_sum_split(s, full, k, j as int, n, false);
    }
    if j < sorted.len() {
        let p = sorted[j].1;
        let w = sorted[j].2;
        proof {
            lemma_u64_product(cap as u128, p as u128);
        }
        let prod: u128 = (cap as u128) * (p as u128);
        let q: u128 = prod / (w as u128);
        let rm: u128 = prod % (w as u128);
        proof {
            assert(q * w + rm == prod && 0 <= rm < w) by (nonlinear_arith)
                requires
                    w > 0,
                    q == (prod as int) / (w as int),
                    rm == (prod as int) % (w as int),
            ;
            assert(q <= p) by (nonlinear_arith)
                requires
                    q * w + rm == prod,
                    rm >= 0,
                    prod == cap * p,
                    cap < w,
            ;
            assert(Set::<usize>::full().contains(s[j as int].0));
            lemma_sum_split(s, full, j as int, j as int + 1, n, false);
            lemma_sum_bounds(s, full, j as int + 1, n, false);
            assert(sel_sum(s, full, j as int, j as int, false) == 0);
            assert((whole + q) * w + rm == whole * w + prod) by (nonlinear_arith)
                requires
                    q * w + rm == prod,
            ;
        }
        UpperBound { whole: whole + q as u64, rem: rm as u64, den: w }
    } else {
        UpperBound { whole, rem: 0, den: 1 }
    }
}

} // verus!
