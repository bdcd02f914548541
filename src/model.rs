use vstd::prelude::*;

verus! {

/// Why a model could not be decoded.
#[derive(Clone, Copy, Debug, PartialEq, Eq, Structural)]
pub enum Error {
    /// The input ended early; this many more bytes were needed by the item being read.
    TruncatedInput(usize),
    /// The bytes do not form a consistent model.
    MalformedEncoding,
    /// The model carries a format version other than 1.
    UnsupportedVersion(i64),
}

/// A number as the wire format carries it: `mantissa * 2^exponent`.
#[derive(Clone, Copy, Debug, PartialEq, Eq, Structural)]
pub struct Real {
    pub mantissa: i64,
    pub exponent: i64,
}

/// A point or offset in the plane.
#[derive(Clone, Copy, Debug, PartialEq, Eq, Structural)]
pub struct Vector2 {
    pub x: Real,
    pub y: Real,
}

/// One decision node of a regression tree.
#[derive(Clone, Copy, Debug, PartialEq, Eq, Structural)]
pub struct SplitFeature {
    pub idx1: u64,
    pub idx2: u64,
    pub thresh: Real,
}

/// A dense matrix, filled row by row.
#[derive(Clone, Debug)]
pub struct Matrix {
    pub rows: u64,
    pub cols: u64,
    pub data: Vec<Real>,
}

pub struct MatrixView {
    pub rows: u64,
    pub cols: u64,
    pub data: Seq<Real>,
}

impl View for Matrix {
    type V = MatrixView;

    open spec fn view(&self) -> MatrixView {
        MatrixView { rows: self.rows, cols: self.cols, data: self.data@ }
    }
}

/// A regression tree stored as an implicit complete binary tree: the splits
/// breadth first, then the leaves.
#[derive(Clone, Debug)]
pub struct RegressionTree {
    pub splits: Vec<SplitFeature>,
    pub leaf_values: Vec<Matrix>,
}

pub struct TreeView {
    pub splits: Seq<SplitFeature>,
    pub leaf_values: Seq<MatrixView>,
}

pub open spec fn matrices_view(v: Seq<Matrix>) -> Seq<MatrixView> {
    Seq::new(v.len(), |i: int| v[i]@)
}

pub open spec fn trees_view(v: Seq<RegressionTree>) -> Seq<TreeView> {
    Seq::new(v.len(), |i: int| v[i]@)
}

pub open spec fn forests_view(v: Seq<Vec<RegressionTree>>) -> Seq<Seq<TreeView>> {
    Seq::new(v.len(), |i: int| trees_view(v[i]@))
}

pub open spec fn nested_view<T>(v: Seq<Vec<T>>) -> Seq<Seq<T>> {
    Seq::new(v.len(), |i: int| v[i]@)
}

impl View for RegressionTree {
    type V = TreeView;

    open spec fn view(&self) -> TreeView {
        TreeView { splits: self.splits@, leaf_values: matrices_view(self.leaf_values@) }
    }
}

/// A decoded shape predictor: the mean shape and, per cascade stage, a forest of
/// trees and the feature sample points (anchor landmark and offset).
#[derive(Clone, Debug)]
pub struct ShapePredictor {
    pub initial_shape: Matrix,
    pub forests: Vec<Vec<RegressionTree>>,
    pub anchor_idx: Vec<Vec<u64>>,
    pub deltas: Vec<Vec<Vector2>>,
}

pub struct ModelView {
    pub initial_shape: MatrixView,
    pub forests: Seq<Seq<TreeView>>,
    pub anchor_idx: Seq<Seq<u64>>,
    pub deltas: Seq<Seq<Vector2>>,
}

impl View for ShapePredictor {
    type V = ModelView;

    open spec fn view(&self) -> ModelView {
        ModelView {
            initial_shape: self.initial_shape@,
            forests: forests_view(self.forests@),
            anchor_idx: nested_view(self.anchor_idx@),
            deltas: nested_view(self.deltas@),
        }
    }
}

/// `n` is 1, 2, 4, 8, ...
pub open spec fn is_power_of_two(n: nat) -> bool
    decreases n,
{
    if n <= 1 {
        n == 1
    } else {
        n % 2 == 0 && is_power_of_two(n / 2)
    }
}

impl MatrixView {
    /// Each dimension is one the format's integers carry, and the element
    /// count is `rows * cols`.
    pub open spec fn well_formed(self) -> bool {
        &&& self.rows <= i64::MAX
        &&& self.cols <= i64::MAX
        &&& self.data.len() == self.rows * self.cols
    }
}

impl TreeView {
    /// One more leaf than splits, a power of two of them; every split reads one
    /// of `n_features` features and every leaf has `shape_len` elements.
    pub open spec fn well_formed(self, n_features: nat, shape_len: nat) -> bool {
        &&& self.leaf_values.len() == self.splits.len() + 1
        &&& is_power_of_two(self.leaf_values.len())
        &&& forall|i: int|
            0 <= i < self.splits.len() ==> (#[trigger] self.splits[i]).idx1 < n_features
                && self.splits[i].idx2 < n_features
        &&& forall|j: int|
            0 <= j < self.leaf_values.len() ==> (#[trigger] self.leaf_values[j]).well_formed()
                && self.leaf_values[j].data.len() == shape_len
    }
}

impl ModelView {
    /// Number of landmarks of the shape.
    pub open spec fn num_landmarks(self) -> nat {
        self.initial_shape.data.len() / 2
    }

    /// Stage `s` has as many anchors as deltas, its anchors name landmarks, and
    /// each of its trees is well formed for the stage's sample count and the
    /// shape's length.
    pub open spec fn stage_well_formed(self, s: int) -> bool {
        &&& self.anchor_idx[s].len() == self.deltas[s].len()
        &&& forall|a: int|
            0 <= a < self.anchor_idx[s].len() ==> #[trigger] self.anchor_idx[s][a]
                < self.num_landmarks()
        &&& forall|t: int|
            0 <= t < self.forests[s].len() ==> (#[trigger] self.forests[s][t]).well_formed(
                self.anchor_idx[s].len(),
                self.initial_shape.data.len(),
            )
    }

    /// The initial shape holds (x, y) pairs, every stage has a forest, anchors
    /// and deltas, and every stage is well formed.
    pub open spec fn well_formed(self) -> bool {
        &&& self.initial_shape.well_formed()
        &&& self.initial_shape.data.len() % 2 == 0
        &&& self.forests.len() == self.anchor_idx.len()
        &&& self.anchor_idx.len() == self.deltas.len()
        &&& forall|s: int| 0 <= s < self.forests.len() ==> #[trigger] self.stage_well_formed(s)
    }
}

/// Whether `n` is a power of two.
pub fn power_of_two(n: usize) -> (r: bool)
    ensures
        r == is_power_of_two(n as nat),
{
    let mut m = n;
    while m > 1
        invariant
            is_power_of_two(m as nat) == is_power_of_two(n as nat),
        decreases m,
    {
        if m % 2 != 0 {
            return false;
        }
        m = m / 2;
    }
    m == 1
}

impl Matrix {
    /// Whether both dimensions are at most `i64::MAX` and the element count is
    /// `rows * cols`.
    pub fn is_well_formed(&self) -> (r: bool)
        ensures
            r == self@.well_formed(),
    {
        proof {
            let (a, b) = (self.rows as int, self.cols as int);
            assert(a * b <= 0xFFFF_FFFF_FFFF_FFFF * 0xFFFF_FFFF_FFFF_FFFF) by (nonlinear_arith)
                requires
                    0 <= a <= 0xFFFF_FFFF_FFFF_FFFF,
                    0 <= b <= 0xFFFF_FFFF_FFFF_FFFF,
            ;
        }
        self.rows <= 0x7FFF_FFFF_FFFF_FFFF && self.cols <= 0x7FFF_FFFF_FFFF_FFFF && self.rows as u128
            * self.cols as u128 == self.data.len() as u128
    }
}

impl RegressionTree {
    /// Whether the tree is well formed for `n_features` features and a shape of
    /// `shape_len` elements.
    pub fn is_well_formed(&self, n_features: usize, shape_len: usize) -> (r: bool)
        ensures
            r == self@.well_formed(n_features as nat, shape_len as nat),
    {
        let ghost tv = self@;
        if self.leaf_values.len() == 0 || self.leaf_values.len() - 1 != self.splits.len() {
            return false;
        }
        if !power_of_two(self.leaf_values.len()) {
            return false;
        }
        let mut i: usize = 0;
        while i < self.splits.len()
            invariant
                tv == self@,
                i <= self.splits.len(),
                forall|k: int|
                    0 <= k < i ==> (#[trigger] tv.splits[k]).idx1 < n_features
                        && tv.splits[k].idx2 < n_features,
            decreases self.splits.len() - i,
        {
            let sp = self.splits[i];
            if sp.idx1 >= n_features as u64 || sp.idx2 >= n_features as u64 {
                assert(tv.splits[i as int] == sp);
                return false;
            }
            i += 1;
        }
        let mut j: usize = 0;
        while j < self.leaf_values.len()
            invariant
                tv == self@,
                j <= self.leaf_values.len(),
                tv.leaf_values.len() == self.leaf_values.len(),
                forall|k: int|
                    0 <= k < j ==> (#[trigger] tv.leaf_values[k]).well_formed()
                        && tv.leaf_values[k].data.len() == shape_len,
            decreases self.leaf_values.len() - j,
        {
            let leaf = &self.leaf_values[j];
            assert(tv.leaf_values[j as int] == leaf@);
            if !leaf.is_well_formed() || leaf.data.len() != shape_len {
                return false;
            }
            j += 1;
        }
        true
    }
}

impl ShapePredictor {
    fn stage_is_well_formed(&self, s: usize) -> (r: bool)
        requires
            s < self.forests.len(),
            self.forests.len() == self.anchor_idx.len(),
            self.anchor_idx.len() == self.deltas.len(),
        ensures
            r == self@.stage_well_formed(s as int),
    {
        let ghost mv = self@;
        let anchors = &self.anchor_idx[s];
        let forest = &self.forests[s];
        assert(mv.anchor_idx[s as int] == anchors@);
        assert(mv.deltas[s as int] == self.deltas@[s as int]@);
        assert(mv.forests[s as int] == trees_view(forest@));
        if anchors.len() != self.deltas[s].len() {
            return false;
        }
        let n_landmarks = self.initial_shape.data.len() / 2;
        let mut a: usize = 0;
        while a < anchors.len()
            invariant
                mv == self@,
                anchors@ == mv.anchor_idx[s as int],
                n_landmarks == mv.num_landmarks(),
                a <= anchors.len(),
                forall|k: int| 0 <= k < a ==> #[trigger] anchors@[k] < mv.num_landmarks(),
            decreases anchors.len() - a,
        {
            if anchors[a] >= n_landmarks as u64 {
                return false;
            }
            a += 1;
        }
        let mut t: usize = 0;
        while t < forest.len()
            invariant
                mv == self@,
                anchors@ == mv.anchor_idx[s as int],
                mv.forests[s as int] == trees_view(forest@),
                t <= forest.len(),
                forall|k: int|
                    0 <= k < t ==> (#[trigger] mv.forests[s as int][k]).well_formed(
                        anchors@.len() as nat,
                        mv.initial_shape.data.len(),
                    ),
            decreases forest.len() - t,
        {
            assert(mv.forests[s as int][t as int] == forest@[t as int]@);
            if !forest[t].is_well_formed(anchors.len(), self.initial_shape.data.len()) {
                return false;
            }
            t += 1;
        }
        true
    }

    /// Whether the model is well formed.
    pub fn is_well_formed(&self) -> (r: bool)
        ensures
            r == self@.well_formed(),
    {
        let ghost mv = self@;
        if !self.initial_shape.is_well_formed() || self.initial_shape.data.len() % 2 != 0 {
            return false;
        }
        let n_stages = self.forests.len();
        if self.anchor_idx.len() != n_stages || self.deltas.len() != n_stages {
            return false;
        }
        let mut s: usize = 0;
        while s < n_stages
            invariant
                mv == self@,
                s <= n_stages,
                n_stages == self.forests.len(),
                n_stages == self.anchor_idx.len(),
                n_stages == self.deltas.len(),
                forall|k: int| 0 <= k < s ==> #[trigger] mv.stage_well_formed(k),
            decreases n_stages - s,
        {
            if !self.stage_is_well_formed(s) {
                return false;
            }
            s += 1;
        }
        true
    }
}

} // verus!
