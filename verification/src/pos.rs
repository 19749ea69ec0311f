//! Two-dimensional unsigned grid coordinates with neighbour enumeration and a
//! distance heuristic.
use vstd::prelude::*;

verus! {

/// An immutable 2-D coordinate: `Pos(x, y)`.
#[derive(Clone, Copy, Debug, Eq, PartialEq, Hash, PartialOrd, Structural)]
pub struct Pos(pub u32, pub u32);

impl From<(u32, u32)> for Pos {
    fn from(value: (u32, u32)) -> (r: Self) {
        Pos(value.0, value.1)
    }
}

impl vstd::std_specs::convert::FromSpecImpl<(u32, u32)> for Pos {
    open spec fn obeys_from_spec() -> bool {
        true
    }

    open spec fn from_spec(value: (u32, u32)) -> Pos {
        Pos(value.0, value.1)
    }
}

/// `|a - b|` over mathematical integers.
pub open spec fn abs_diff_spec(a: u32, b: u32) -> int {
    if a >= b {
        a - b
    } else {
        b - a
    }
}

/// Squared Euclidean distance between two positions.
pub open spec fn dist_sq(a: Pos, b: Pos) -> int {
    abs_diff_spec(a.0, b.0) * abs_diff_spec(a.0, b.0) + abs_diff_spec(a.1, b.1) * abs_diff_spec(
        a.1,
        b.1,
    )
}

/// The integer square root: the largest `r` with `r * r <= n`.
pub closed spec fn floor_sqrt(n: nat) -> nat
    decreases n,
{
    if n == 0 {
        0
    } else {
        let p = floor_sqrt((n - 1) as nat);
        if (p + 1) * (p + 1) <= n {
            (p + 1) as nat
        } else {
            p
        }
    }
}

/// The heuristic score of a pair of positions: the floor of their Euclidean
/// distance, plus one (so coincident positions still score 1).
pub open spec fn spec_pos_score(a: Pos, b: Pos) -> nat {
    (floor_sqrt(dist_sq(a, b) as nat) + 1) as nat
}

/// `floor_sqrt(n)` is squeezed between the two neighbouring perfect squares.
pub proof fn lemma_floor_sqrt_bounds(n: nat)
    ensures
        (floor_sqrt(n) as int) * (floor_sqrt(n) as int) <= n as int,
        (n as int) < (floor_sqrt(n) as int + 1) * (floor_sqrt(n) as int + 1),
    decreases n,
{
    if n == 0 {
        assert(floor_sqrt(0) == 0);
    } else {
        lemma_floor_sqrt_bounds((n - 1) as nat);
        let p = floor_sqrt((n - 1) as nat) as int;
        let f = floor_sqrt(n) as int;
        assert(f == if (p + 1) * (p + 1) <= n as int {
            p + 1
        } else {
            p
        });
        if (p + 1) * (p + 1) <= n as int {
            assert((p + 1 + 1) * (p + 1 + 1) > n as int) by (nonlinear_arith)
                requires
                    0 <= p,
                    (n as int - 1) < (p + 1) * (p + 1),
            ;
            assert((n as int) < (f + 1) * (f + 1)) by (nonlinear_arith)
                requires
                    (p + 1 + 1) * (p + 1 + 1) > n as int,
                    f == p + 1,
            ;
        }
    }
}

/// The bounds of `lemma_floor_sqrt_bounds` pin the integer square root down.
pub proof fn lemma_floor_sqrt_unique(n: nat, r: int)
    requires
        0 <= r,
        r * r <= n as int,
        (n as int) < (r + 1) * (r + 1),
    ensures
        r == floor_sqrt(n) as int,
{
    lemma_floor_sqrt_bounds(n);
    let f = floor_sqrt(n) as int;
    if r < f {
        assert((r + 1) * (r + 1) <= f * f) by (nonlinear_arith)
            requires
                0 <= r,
                r + 1 <= f,
        ;
    }
    if f < r {
        assert((f + 1) * (f + 1) <= r * r) by (nonlinear_arith)
            requires
                0 <= f,
                f + 1 <= r,
        ;
    }
}

/// `|a - b|` as a machine integer.
fn abs_diff(a: u32, b: u32) -> (r: u32)
    ensures
        r as int == abs_diff_spec(a, b),
{
    if a >= b {
        a - b
    } else {
        b - a
    }
}

/// Binary search for the integer square root of `n`.
fn isqrt_u128(n: u128) -> (r: u64)
    requires
        n < 0x4_0000_0000_0000_0000,  // below 2^66, so the root is below 2^33
    ensures
        r as int == floor_sqrt(n as nat),
        (r as int) * (r as int) <= n as int,
        n < ((r as int) + 1) * ((r as int) + 1),
{
    let mut lo: u64 = 0;
    let mut hi: u64 = 0x2_0000_0000;
    assert((hi as int) * (hi as int) == 0x4_0000_0000_0000_0000) by (nonlinear_arith)
        requires
            hi == 0x2_0000_0000u64,
    ;
    while lo + 1 < hi
        invariant
            lo < hi,
            hi <= 0x2_0000_0000,
            (lo as int) * (lo as int) <= n as int,
            n < (hi as int) * (hi as int),
        decreases hi - lo,
    {
        let mid = lo + (hi - lo) / 2;
        assert((mid as int) * (mid as int) <= 0x4_0000_0000_0000_0000) by (nonlinear_arith)
            requires
                mid <= 0x2_0000_0000u64,
        ;
        if (mid as u128) * (mid as u128) <= n {
            lo = mid;
        } else {
            hi = mid;
        }
    }
    proof {
        lemma_floor_sqrt_unique(n as nat, lo as int);
    }
    lo
}

impl Pos {
    /// The neighbouring positions of `self`, in a fixed enumeration order:
    /// right, down, left, up, then (when `allow_diagonal` is set) up-left,
    /// down-right, down-left, up-right. A candidate whose coordinate would be
    /// negative is discarded; no upper bound is applied here.
    pub open spec fn spec_neighbours(self, allow_diagonal: bool) -> Seq<Pos> {
        let base = seq![Pos((self.0 + 1) as u32, self.1), Pos(self.0, (self.1 + 1) as u32)] + (
        if self.0 >= 1 {
            seq![Pos((self.0 - 1) as u32, self.1)]
        } else {
            Seq::empty()
        }) + (if self.1 >= 1 {
            seq![Pos(self.0, (self.1 - 1) as u32)]
        } else {
            Seq::empty()
        });
        if allow_diagonal {
            base + (if self.0 >= 1 && self.1 >= 1 {
                seq![Pos((self.0 - 1) as u32, (self.1 - 1) as u32)]
            } else {
                Seq::empty()
            }) + seq![Pos((self.0 + 1) as u32, (self.1 + 1) as u32)] + (if self.0 >= 1 {
                seq![Pos((self.0 - 1) as u32, (self.1 + 1) as u32)]
            } else {
                Seq::empty()
            }) + (if self.1 >= 1 {
                seq![Pos((self.0 + 1) as u32, (self.1 - 1) as u32)]
            } else {
                Seq::empty()
            })
        } else {
            base
        }
    }

    /// The 4 axis-aligned neighbours, plus the 4 diagonal ones when
    /// `allow_diagonal` is set, discarding candidates with a negative
    /// coordinate.
    pub fn neighbour_positions(&self, allow_diagonal: bool) -> (r: Vec<Pos>)
        requires
            self.0 < u32::MAX,
            self.1 < u32::MAX,
        ensures
            r@ == self.spec_neighbours(allow_diagonal),
    {
        let mut r: Vec<Pos> = Vec::new();
        r.push(Pos(self.0 + 1, self.1));
        r.push(Pos(self.0, self.1 + 1));
        if self.0 >= 1 {
            r.push(Pos(self.0 - 1, self.1));
        }
        if self.1 >= 1 {
            r.push(Pos(self.0, self.1 - 1));
        }
        if allow_diagonal {
            if self.0 >= 1 && self.1 >= 1 {
                r.push(Pos(self.0 - 1, self.1 - 1));
            }
            r.push(Pos(self.0 + 1, self.1 + 1));
            if self.0 >= 1 {
                r.push(Pos(self.0 - 1, self.1 + 1));
            }
            if self.1 >= 1 {
                r.push(Pos(self.0 + 1, self.1 - 1));
            }
        }
        proof {
            assert(r@ =~= self.spec_neighbours(allow_diagonal));
        }
        r
    }

    /// The heuristic distance between two positions: the floor of the
    /// Euclidean distance plus one, so the score is always strictly positive.
    pub fn score(pos_a: &Pos, pos_b: &Pos) -> (r: u64)
        ensures
            r as int == spec_pos_score(*pos_a, *pos_b),
            r >= 1,
    {
        let dx = abs_diff(pos_a.0, pos_b.0);
        let dy = abs_diff(pos_a.1, pos_b.1);
        assert((dx as u128) * (dx as u128) < 0x2_0000_0000_0000_0000 && (dy as u128) * (dy
            as u128) < 0x2_0000_0000_0000_0000) by (nonlinear_arith)
            requires
                dx < 0x1_0000_0000u128,
                dy < 0x1_0000_0000u128,
        ;
        let d2: u128 = (dx as u128) * (dx as u128) + (dy as u128) * (dy as u128);
        let s = isqrt_u128(d2);
        proof {
            assert(d2 as int == dist_sq(*pos_a, *pos_b));
            assert((s as int) * (s as int) < 0x4_0000_0000_0000_0000);
            assert(s < 0x2_0000_0000) by (nonlinear_arith)
                requires
                    (s as int) * (s as int) < 0x4_0000_0000_0000_0000,
            ;
        }
        s + 1
    }
}

} // verus!
