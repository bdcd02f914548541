use vstd::prelude::*;

use crate::model::{trees_view, Matrix, Real, RegressionTree, ShapePredictor, SplitFeature, TreeView};

verus! {

pub open spec fn two_pow(n: nat) -> nat
    decreases n,
{
    if n == 0 {
        1
    } else {
        2 * two_pow((n - 1) as nat)
    }
}

/// `d` is greater than the value `mantissa * 2^exponent` of `r`.
pub open spec fn int_exceeds(d: int, r: Real) -> bool {
    if r.exponent >= 0 {
        d > r.mantissa * two_pow(r.exponent as nat)
    } else {
        d * two_pow((-r.exponent) as nat) > r.mantissa
    }
}

/// A split sends the features left when the first feature minus the second
/// exceeds the threshold; a tie goes right.
pub open spec fn goes_left(split: SplitFeature, f: Seq<u8>) -> bool {
    int_exceeds(f[split.idx1 as int] as int - f[split.idx2 as int] as int, split.thresh)
}

/// The leaf reached from node `i`: node `i` has children `2i+1` (left) and
/// `2i+2` (right); a node index past the splits names leaf `index - splits`.
pub open spec fn leaf_from(splits: Seq<SplitFeature>, f: Seq<u8>, i: nat) -> nat
    decreases (if i < splits.len() {
        splits.len() - i
    } else {
        0
    }),
{
    if i >= splits.len() {
        (i - splits.len()) as nat
    } else if goes_left(splits[i as int], f) {
        leaf_from(splits, f, 2 * i + 1)
    } else {
        leaf_from(splits, f, 2 * i + 2)
    }
}

/// The leaf that the features reach from the root.
pub open spec fn leaf_index(t: TreeView, f: Seq<u8>) -> nat {
    leaf_from(t.splits, f, 0)
}

/// Every split of `t` reads a feature of `f`.
pub open spec fn reads_within(t: TreeView, f: Seq<u8>) -> bool {
    forall|k: int|
        0 <= k < t.splits.len() ==> (#[trigger] t.splits[k]).idx1 < f.len() && t.splits[k].idx2
            < f.len()
}

proof fn lemma_two_pow_pos(a: nat)
    ensures
        two_pow(a) >= 1,
    decreases a,
{
    if a > 0 {
        lemma_two_pow_pos((a - 1) as nat);
    }
}

proof fn lemma_two_pow_mono(a: nat, b: nat)
    requires
        a <= b,
    ensures
        two_pow(a) <= two_pow(b),
    decreases b - a,
{
    if a < b {
        lemma_two_pow_mono(a, (b - 1) as nat);
        lemma_two_pow_pos((b - 1) as nat);
    }
}

proof fn lemma_leaf_bound(splits: Seq<SplitFeature>, f: Seq<u8>, i: nat)
    requires
        i <= 2 * splits.len(),
    ensures
        leaf_from(splits, f, i) <= splits.len(),
    decreases (if i < splits.len() {
        splits.len() - i
    } else {
        0
    }),
{
    if i < splits.len() {
        lemma_leaf_bound(splits, f, 2 * i + 1);
        lemma_leaf_bound(splits, f, 2 * i + 2);
    }
}

/// Computes `2^k` for `k < 64`.
fn power_of_two_below_64(k: u32) -> (p: i128)
    requires
        k < 64,
    ensures
        p == two_pow(k as nat),
        p <= 0x8000_0000_0000_0000,
{
    proof {
        lemma_two_pow_64();
    }
    let mut p: i128 = 1;
    let mut j: u32 = 0;
    while j < k
        invariant
            j <= k < 64,
            p == two_pow(j as nat),
            two_pow(63) == 0x8000_0000_0000_0000,
        decreases k - j,
    {
        proof {
            lemma_two_pow_mono((j + 1) as nat, 63);
        }
        p = p * 2;
        j += 1;
    }
    proof {
        lemma_two_pow_mono(k as nat, 63);
    }
    p
}

proof fn lemma_two_pow_64()
    ensures
        two_pow(9) == 512,
        two_pow(63) == 0x8000_0000_0000_0000,
        two_pow(64) == 0x1_0000_0000_0000_0000,
{
    reveal_with_fuel(two_pow, 65);
}

/// A multiple of `p` by a nonzero integer is at least `p` away from zero.
proof fn lemma_nonzero_multiple(m: int, p: int)
    requires
        m != 0,
        p >= 0,
    ensures
        m > 0 ==> m * p >= p,
        m < 0 ==> m * p <= -p,
{
    if m > 0 {
        assert(m * p >= p) by (nonlinear_arith)
            requires
                m >= 1,
                p >= 0,
        ;
    } else {
        assert(m * p <= -p) by (nonlinear_arith)
            requires
                m <= -1,
                p >= 0,
        ;
    }
}

proof fn lemma_product_bound(a: int, b: int, ba: int, bb: int)
    requires
        -ba <= a <= ba,
        0 <= b <= bb,
    ensures
        -(ba * bb) <= a * b <= ba * bb,
{
    assert(-(ba * bb) <= a * b <= ba * bb) by (nonlinear_arith)
        requires
            -ba <= a <= ba,
            0 <= b <= bb,
    ;
}

/// Whether `d` exceeds the value of `r`, decided exactly on integers.
pub fn exceeds(d: i32, r: Real) -> (b: bool)
    requires
        -255 <= d <= 255,
    ensures
        b == int_exceeds(d as int, r),
{
    let m = r.mantissa;
    let e = r.exponent;
    proof {
        lemma_two_pow_64();
    }
    if e >= 0 {
        if m == 0 {
            proof {
                assert(m * two_pow(e as nat) == 0);
            }
            d > 0
        } else if e >= 9 {
            proof {
                lemma_two_pow_mono(9, e as nat);
                lemma_nonzero_multiple(m as int, two_pow(e as nat) as int);
            }
            m < 0
        } else {
            let p = power_of_two_below_64(e as u32);
            proof {
                lemma_two_pow_pos(e as nat);
                lemma_two_pow_mono(e as nat, 9);
                lemma_product_bound(m as int, p as int, 0x8000_0000_0000_0000, 512);
            }
            (d as i128) > (m as i128) * p
        }
    } else {
        if d == 0 {
            proof {
                assert(0 * two_pow((-e) as nat) == 0);
            }
            0 > m
        } else if e <= -64 {
            proof {
                lemma_two_pow_mono(64, (-e) as nat);
                lemma_nonzero_multiple(d as int, two_pow((-e) as nat) as int);
            }
            d > 0
        } else {
            let k = (0 - e) as u32;
            let p = power_of_two_below_64(k);
            proof {
                lemma_two_pow_pos(k as nat);
                lemma_product_bound(d as int, p as int, 255, 0x8000_0000_0000_0000);
            }
            (d as i128) * p > (m as i128)
        }
    }
}

impl RegressionTree {
    /// Routes the features from the root to a leaf; stores the leaf's index in
    /// `i` and returns the leaf's correction.
    pub fn find<'a>(&'a self, feature_pixel_values: &[u8], i: &mut usize) -> (r: &'a Matrix)
        requires
            self@.leaf_values.len() == self@.splits.len() + 1,
            reads_within(self@, feature_pixel_values@),
        ensures
            *final(i) == leaf_index(self@, feature_pixel_values@),
            *final(i) < self@.leaf_values.len(),
            r@ == self@.leaf_values[*final(i) as int],
    {
        let n = self.splits.len();
        let mut node: u128 = 0;
        while node < n as u128
            invariant
                n == self.splits@.len(),
                self@.leaf_values.len() == self@.splits.len() + 1,
                reads_within(self@, feature_pixel_values@),
                node <= 2 * n,
                leaf_from(self.splits@, feature_pixel_values@, node as nat) == leaf_from(
                    self.splits@,
                    feature_pixel_values@,
                    0,
                ),
            decreases (if node < n {
                n - node
            } else {
                0
            }),
        {
            let split = self.splits[node as usize];
            assert(self@.splits[node as int] == split);
            let d = feature_pixel_values[split.idx1 as usize] as i32
                - feature_pixel_values[split.idx2 as usize] as i32;
            if exceeds(d, split.thresh) {
                node = 2 * node + 1;
            } else {
                node = 2 * node + 2;
            }
        }
        proof {
            lemma_leaf_bound(self.splits@, feature_pixel_values@, 0);
        }
        *i = (node - n as u128) as usize;
        &self.leaf_values[*i]
    }
}

impl ShapePredictor {
    /// Evaluates every tree of stage `stage`, in order, on that stage's feature
    /// values, and returns the index of the leaf each one reaches.
    pub fn stage_leaf_indices(&self, stage: usize, feature_pixel_values: &[u8]) -> (r: Vec<usize>)
        requires
            self@.well_formed(),
            stage < self@.forests.len(),
            feature_pixel_values@.len() == self@.anchor_idx[stage as int].len(),
        ensures
            r@.len() == self@.forests[stage as int].len(),
            forall|t: int|
                0 <= t < r@.len() ==> #[trigger] r@[t] == leaf_index(
                    self@.forests[stage as int][t],
                    feature_pixel_values@,
                ) && r@[t] < self@.forests[stage as int][t].leaf_values.len(),
    {
        let ghost mv = self@;
        assert(mv.stage_well_formed(stage as int));
        let forest = &self.forests[stage];
        assert(mv.forests[stage as int] == trees_view(forest@));
        let mut r: Vec<usize> = Vec::new();
        let mut t: usize = 0;
        while t < forest.len()
            invariant
                mv == self@,
                mv.well_formed(),
                stage < mv.forests.len(),
                feature_pixel_values@.len() == mv.anchor_idx[stage as int].len(),
                mv.forests[stage as int] == trees_view(forest@),
                t <= forest.len(),
                r@.len() == t,
                forall|k: int|
                    0 <= k < t ==> #[trigger] r@[k] == leaf_index(
                        mv.forests[stage as int][k],
                        feature_pixel_values@,
                    ) && r@[k] < mv.forests[stage as int][k].leaf_values.len(),
            decreases forest.len() - t,
        {
            let tree = &forest[t];
            assert(mv.forests[stage as int][t as int] == tree@);
            assert(mv.stage_well_formed(stage as int));
            let mut leaf: usize = 0;
            tree.find(feature_pixel_values, &mut leaf);
            r.push(leaf);
            t += 1;
        }
        r
    }
}

} // verus!
