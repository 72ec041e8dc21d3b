//! Low points of a height map.

use vstd::prelude::*;

verus! {

/// A rectangular height map, row-major.
pub struct Floor {
    pub heightmap: Vec<u8>,
    pub width: usize,
}

impl Floor {
    pub open spec fn wf(self) -> bool {
        &&& self.width >= 1
        &&& self.width <= self.heightmap@.len()
        &&& self.heightmap@.len() >= 1
        &&& (self.heightmap@.len() as int) % (self.width as int) == 0
        &&& self.heightmap@.len() <= 0x0080_0000_0000_0000
    }

    pub open spec fn h(self, i: int) -> int {
        self.heightmap@[i] as int
    }

    pub open spec fn n(self) -> int {
        self.heightmap@.len() as int
    }

    /// The four neighbour cells that are strictly higher, in the fixed order
    /// left, below, right, above; only cells inside the rectangle count.
    pub open spec fn spec_higher(self, i: int) -> Seq<int> {
        let x = i % (self.width as int);
        let left: Seq<int> = if x > 0 && self.h(i) < self.h(i - 1) {
            seq![i - 1]
        } else {
            seq![]
        };
        let down: Seq<int> = if i + self.width < self.n() && self.h(i) < self.h(
            i + self.width,
        ) {
            seq![i + self.width]
        } else {
            seq![]
        };
        let right: Seq<int> = if x + 1 < self.width && self.h(i) < self.h(i + 1) {
            seq![i + 1]
        } else {
            seq![]
        };
        let up: Seq<int> = if i - self.width >= 0 && self.h(i) < self.h(i - self.width) {
            seq![i - self.width]
        } else {
            seq![]
        };
        left.add(down).add(right).add(up)
    }

    /// Every in-bounds neighbour is strictly higher.
    pub open spec fn spec_minimum(self, i: int) -> bool {
        let x = i % (self.width as int);
        &&& (x > 0 ==> self.h(i) < self.h(i - 1))
        &&& (i + self.width < self.n() ==> self.h(i) < self.h(i + self.width))
        &&& (x + 1 < self.width ==> self.h(i) < self.h(i + 1))
        &&& (i - self.width >= 0 ==> self.h(i) < self.h(i - self.width))
    }

    /// The strictly higher neighbours of cell `i`, and whether `i` is a low
    /// point.
    pub fn higher_adjacent_positions(&self, i: usize) -> (r: (Vec<usize>, bool))
        requires
            self.wf(),
            i < self.n(),
        ensures
            r.0@.map_values(|v: usize| v as int) == self.spec_higher(i as int),
            r.1 == self.spec_minimum(i as int),
    {
        let x = i % self.width;
        proof {
            if i == 0 {
                assert((0int) % (self.width as int) == 0);
            }
        }
        let mut higher: Vec<usize> = Vec::new();
        let mut minimum = true;
        let score = self.heightmap[i];
        if x > 0 {
            if score < self.heightmap[i - 1] {
                higher.push(i - 1);
            } else {
                minimum = false;
            }
        }
        if self.width < self.heightmap.len() - i {
            proof {
                assert(i + self.width < self.heightmap@.len());
            }
            if score < self.heightmap[i + self.width] {
                higher.push(i + self.width);
            } else {
                minimum = false;
            }
        }
        if x + 1 < self.width {
            proof {
                vstd::arithmetic::div_mod::lemma_fundamental_div_mod(i as int, self.width as int);
                vstd::arithmetic::div_mod::lemma_mod_bound(i as int, self.width as int);
                lemma_row_inside(i as int, self.width as int, self.n());
            }
            if score < self.heightmap[i + 1] {
                higher.push(i + 1);
            } else {
                minimum = false;
            }
        }
        if i >= self.width {
            if score < self.heightmap[i - self.width] {
                higher.push(i - self.width);
            } else {
                minimum = false;
            }
        }
        proof {
            assert(higher@.map_values(|v: usize| v as int) =~= self.spec_higher(i as int));
        }
        (higher, minimum)
    }

    /// Risk of cell `i`: height plus one at a low point, zero elsewhere.
    pub fn risk_at(&self, i: usize) -> (r: u32)
        requires
            self.wf(),
            i < self.n(),
        ensures
            r as int == spec_risk(*self, i as int),
    {
        let (_, minimum) = self.higher_adjacent_positions(i);
        if minimum {
            (self.heightmap[i] as u32) + 1
        } else {
            0
        }
    }
}

/// A cell one short of the row's end is still inside the map.
proof fn lemma_row_inside(i: int, w: int, n: int)
    requires
        w >= 1,
        0 <= i < n,
        n % w == 0,
        i % w + 1 < w,
    ensures
        i + 1 < n,
{
    vstd::arithmetic::div_mod::lemma_fundamental_div_mod(i, w);
    vstd::arithmetic::div_mod::lemma_fundamental_div_mod(n, w);
    vstd::arithmetic::div_mod::lemma_mod_bound(i, w);
    let q = i / w;
    let m = n / w;
    assert(i < n);
    assert(w * q + i % w < w * m);
    if q >= m {
        vstd::arithmetic::mul::lemma_mul_inequality(m, q, w);
        vstd::arithmetic::mul::lemma_mul_is_commutative(m, w);
        vstd::arithmetic::mul::lemma_mul_is_commutative(q, w);
        assert(false);
    }
    vstd::arithmetic::mul::lemma_mul_inequality(q + 1, m, w);
    vstd::arithmetic::mul::lemma_mul_is_commutative(q + 1, w);
    vstd::arithmetic::mul::lemma_mul_is_commutative(m, w);
    assert(w * (q + 1) <= w * m);
    vstd::arithmetic::mul::lemma_mul_is_distributive_add(w, q, 1);
    assert(w * (q + 1) == w * q + w * 1);
}

pub open spec fn spec_risk(f: Floor, i: int) -> int {
    if f.spec_minimum(i) {
        f.h(i) + 1
    } else {
        0
    }
}

/// Total risk of the first `k` cells.
pub open spec fn risk_sum(f: Floor, k: int) -> int
    decreases k,
{
    if k <= 0 {
        0
    } else {
        risk_sum(f, k - 1) + spec_risk(f, k - 1)
    }
}

/// Sum of the risk levels of all low points.
pub fn part_1(floor: &Floor) -> (r: u64)
    requires
        floor.wf(),
    ensures
        r as int == risk_sum(*floor, floor.n()),
{
    let mut total: u64 = 0;
    let mut i: usize = 0;
    while i < floor.heightmap.len()
        invariant
            0 <= i <= floor.n(),
            floor.wf(),
            total as int == risk_sum(*floor, i as int),
            total as int <= 256 * i,
        decreases floor.n() - i,
    {
        let risk = floor.risk_at(i);
        total = total + (risk as u64);
        i = i + 1;
    }
    total
}

} // verus!
