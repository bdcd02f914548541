use vstd::prelude::*;

use crate::cache::{enc_int, lemma_enc_int_len, lemma_holds_split, lemma_int_back};
use crate::model::{
    forests_view, matrices_view, nested_view, trees_view, Error, Matrix, MatrixView, ModelView, Real,
    RegressionTree, ShapePredictor, SplitFeature, TreeView, Vector2,
};

verus! {

/// The unsigned value of big-endian bytes.
pub open spec fn be_value(b: Seq<u8>) -> nat
    decreases b.len(),
{
    if b.len() == 0 {
        0
    } else {
        be_value(b.drop_last()) * 256 + b.last() as nat
    }
}

pub open spec fn pow256(n: nat) -> nat
    decreases n,
{
    if n == 0 {
        1
    } else {
        256 * pow256((n - 1) as nat)
    }
}

/// Number of bytes missing when `end` bytes are needed and `s` holds fewer.
pub open spec fn missing(s: Seq<u8>, end: int) -> usize {
    (end - s.len()) as usize
}

/// An encoded integer at `pos`: a control byte whose low nibble is the byte
/// count (at most 8) and whose high bit is the sign, then the magnitude.
pub open spec fn spec_int(s: Seq<u8>, pos: usize) -> Result<(i64, usize), Error> {
    if pos >= s.len() {
        Err(Error::TruncatedInput(missing(s, pos + 1)))
    } else {
        let size = (s[pos as int] % 16) as int;
        let negative = s[pos as int] >= 128;
        if size > 8 {
            Err(Error::MalformedEncoding)
        } else if pos + 1 + size > s.len() {
            Err(Error::TruncatedInput(missing(s, pos + 1 + size)))
        } else {
            let mag = be_value(s.subrange(pos + 1, pos + 1 + size)) as int;
            let v = if negative {
                -mag
            } else {
                mag
            };
            if i64::MIN <= v && v <= i64::MAX {
                Ok((v as i64, (pos + 1 + size) as usize))
            } else {
                Err(Error::MalformedEncoding)
            }
        }
    }
}

proof fn lemma_be_value_bound(b: Seq<u8>)
    ensures
        be_value(b) < pow256(b.len()),
    decreases b.len(),
{
    if b.len() > 0 {
        lemma_be_value_bound(b.drop_last());
        let p = pow256((b.len() - 1) as nat);
        let v = be_value(b.drop_last());
        let l = b.last() as nat;
        assert(v * 256 + l < 256 * p) by (nonlinear_arith)
            requires
                v < p,
                l < 256,
        ;
    }
}

/// Reads an encoded integer at `pos`; returns it and the position after it.
pub fn dlib_int(input: &[u8], pos: usize) -> (r: Result<(i64, usize), Error>)
    requires
        pos <= input@.len(),
    ensures
        r == spec_int(input@, pos),
        r is Ok ==> pos < r->Ok_0.1 <= input@.len(),
{
    let len = input.len();
    if pos >= len {
        return Err(Error::TruncatedInput(1));
    }
    let control = input[pos];
    let size = (control % 16) as usize;
    if size > 8 {
        return Err(Error::MalformedEncoding);
    }
    if size > len - pos - 1 {
        return Err(Error::TruncatedInput(size - (len - pos - 1)));
    }
    let start = pos + 1;
    let mut mag: u64 = 0;
    let mut i: usize = 0;
    proof {
        reveal_with_fuel(pow256, 9);
    }
    while i < size
        invariant
            start == pos + 1,
            start + size <= len,
            len == input@.len(),
            i <= size <= 8,
            mag as nat == be_value(input@.subrange(start as int, start + i)),
            pow256(8) == 0x1_0000_0000_0000_0000,
        decreases size - i,
    {
        let ghost prev = input@.subrange(start as int, start + i);
        let ghost next = input@.subrange(start as int, start + i + 1);
        proof {
            assert(next.drop_last() =~= prev);
            lemma_be_value_bound(next);
            lemma_pow256_mono((i + 1) as nat, 8);
        }
        mag = mag * 256 + input[start + i] as u64;
        i += 1;
    }
    let end = start + size;
    if control >= 128 {
        if mag > 0x8000_0000_0000_0000 {
            Err(Error::MalformedEncoding)
        } else {
            let v = (0 - (mag as i128)) as i64;
            Ok((v, end))
        }
    } else {
        if mag > 0x7FFF_FFFF_FFFF_FFFF {
            Err(Error::MalformedEncoding)
        } else {
            Ok((mag as i64, end))
        }
    }
}

proof fn lemma_pow256_mono(a: nat, b: nat)
    requires
        a <= b,
    ensures
        pow256(a) <= pow256(b),
    decreases b - a,
{
    if a < b {
        lemma_pow256_mono(a, (b - 1) as nat);
        lemma_pow256_pos((b - 1) as nat);
    }
}

proof fn lemma_pow256_pos(a: nat)
    ensures
        pow256(a) >= 1,
    decreases a,
{
    if a > 0 {
        lemma_pow256_pos((a - 1) as nat);
    }
}


/// An encoded float: mantissa, then exponent, each an encoded integer.
pub open spec fn spec_float(s: Seq<u8>, pos: usize) -> Result<(Real, usize), Error> {
    match spec_int(s, pos) {
        Err(e) => Err(e),
        Ok((m, p)) => match spec_int(s, p) {
            Err(e) => Err(e),
            Ok((x, q)) => Ok((Real { mantissa: m, exponent: x }, q)),
        },
    }
}

/// An encoded vector: `x`, then `y`, each an encoded float.
pub open spec fn spec_vector2(s: Seq<u8>, pos: usize) -> Result<(Vector2, usize), Error> {
    match spec_float(s, pos) {
        Err(e) => Err(e),
        Ok((x, p)) => match spec_float(s, p) {
            Err(e) => Err(e),
            Ok((y, q)) => Ok((Vector2 { x, y }, q)),
        },
    }
}

/// An encoded integer that must not be negative (a count or an index).
pub open spec fn spec_nonneg(s: Seq<u8>, pos: usize) -> Result<(u64, usize), Error> {
    match spec_int(s, pos) {
        Err(e) => Err(e),
        Ok((v, p)) => if v < 0 {
            Err(Error::MalformedEncoding)
        } else {
            Ok((v as u64, p))
        },
    }
}

/// A split: two feature indices and a threshold.
pub open spec fn spec_split(s: Seq<u8>, pos: usize) -> Result<(SplitFeature, usize), Error> {
    match spec_nonneg(s, pos) {
        Err(e) => Err(e),
        Ok((i1, at1)) => match spec_nonneg(s, at1) {
            Err(e) => Err(e),
            Ok((i2, at2)) => match spec_float(s, at2) {
                Err(e) => Err(e),
                Ok((t, q)) => Ok((SplitFeature { idx1: i1, idx2: i2, thresh: t }, q)),
            },
        },
    }
}

/// Rows and columns. Either both are given as they are, or both negated;
/// a pair with one negative and one positive value is malformed, and so is a
/// negated dimension whose magnitude is above `i64::MAX`.
pub open spec fn spec_dims(s: Seq<u8>, pos: usize) -> Result<((u64, u64), usize), Error> {
    match spec_int(s, pos) {
        Err(e) => Err(e),
        Ok((r, p)) => match spec_int(s, p) {
            Err(e) => Err(e),
            Ok((c, q)) => if r < 0 || c < 0 {
                if r <= 0 && c <= 0 && r > i64::MIN && c > i64::MIN {
                    Ok((((-r as int) as u64, (-c as int) as u64), q))
                } else {
                    Err(Error::MalformedEncoding)
                }
            } else {
                Ok(((r as u64, c as u64), q))
            },
        },
    }
}

/// `n` items in a row, each read by `p`.
pub open spec fn spec_many<T>(
    p: spec_fn(Seq<u8>, usize) -> Result<(T, usize), Error>,
    s: Seq<u8>,
    pos: usize,
    n: nat,
) -> Result<(Seq<T>, usize), Error>
    decreases n,
{
    if n == 0 {
        Ok((Seq::empty(), pos))
    } else {
        match spec_many(p, s, pos, (n - 1) as nat) {
            Err(e) => Err(e),
            Ok((v, q)) => match p(s, q) {
                Err(e) => Err(e),
                Ok((x, r)) => Ok((v.push(x), r)),
            },
        }
    }
}

/// A count, then that many items read by `p`.
pub open spec fn spec_counted<T>(
    p: spec_fn(Seq<u8>, usize) -> Result<(T, usize), Error>,
    s: Seq<u8>,
    pos: usize,
) -> Result<(Seq<T>, usize), Error> {
    match spec_nonneg(s, pos) {
        Err(e) => Err(e),
        Ok((n, q)) => spec_many(p, s, q, n as nat),
    }
}

pub open spec fn float_p() -> spec_fn(Seq<u8>, usize) -> Result<(Real, usize), Error> {
    |s: Seq<u8>, pos: usize| spec_float(s, pos)
}

pub open spec fn vector2_p() -> spec_fn(Seq<u8>, usize) -> Result<(Vector2, usize), Error> {
    |s: Seq<u8>, pos: usize| spec_vector2(s, pos)
}

pub open spec fn nonneg_p() -> spec_fn(Seq<u8>, usize) -> Result<(u64, usize), Error> {
    |s: Seq<u8>, pos: usize| spec_nonneg(s, pos)
}

pub open spec fn split_p() -> spec_fn(Seq<u8>, usize) -> Result<(SplitFeature, usize), Error> {
    |s: Seq<u8>, pos: usize| spec_split(s, pos)
}

/// A matrix: its dimensions, then `rows * cols` floats in row-major order.
pub open spec fn spec_matrix(s: Seq<u8>, pos: usize) -> Result<(MatrixView, usize), Error> {
    match spec_dims(s, pos) {
        Err(e) => Err(e),
        Ok(((r, c), p)) => match spec_many(float_p(), s, p, (r * c) as nat) {
            Err(e) => Err(e),
            Ok((d, q)) => Ok((MatrixView { rows: r, cols: c, data: d }, q)),
        },
    }
}

pub open spec fn matrix_p() -> spec_fn(Seq<u8>, usize) -> Result<(MatrixView, usize), Error> {
    |s: Seq<u8>, pos: usize| spec_matrix(s, pos)
}

/// A tree: counted splits, then counted leaf matrices.
pub open spec fn spec_tree(s: Seq<u8>, pos: usize) -> Result<(TreeView, usize), Error> {
    match spec_counted(split_p(), s, pos) {
        Err(e) => Err(e),
        Ok((sp, p)) => match spec_counted(matrix_p(), s, p) {
            Err(e) => Err(e),
            Ok((lv, q)) => Ok((TreeView { splits: sp, leaf_values: lv }, q)),
        },
    }
}

pub open spec fn tree_p() -> spec_fn(Seq<u8>, usize) -> Result<(TreeView, usize), Error> {
    |s: Seq<u8>, pos: usize| spec_tree(s, pos)
}

pub open spec fn forest_p() -> spec_fn(Seq<u8>, usize) -> Result<(Seq<TreeView>, usize), Error> {
    |s: Seq<u8>, pos: usize| spec_counted(tree_p(), s, pos)
}

pub open spec fn anchors_p() -> spec_fn(Seq<u8>, usize) -> Result<(Seq<u64>, usize), Error> {
    |s: Seq<u8>, pos: usize| spec_counted(nonneg_p(), s, pos)
}

pub open spec fn deltas_p() -> spec_fn(Seq<u8>, usize) -> Result<(Seq<Vector2>, usize), Error> {
    |s: Seq<u8>, pos: usize| spec_counted(vector2_p(), s, pos)
}

/// The format version, which must be 1.
pub open spec fn spec_version(s: Seq<u8>, pos: usize) -> Result<(i64, usize), Error> {
    match spec_int(s, pos) {
        Err(e) => Err(e),
        Ok((v, p)) => if v != 1 {
            Err(Error::UnsupportedVersion(v))
        } else {
            Ok((v, p))
        },
    }
}

/// A whole model: version, initial shape, then per stage the forests, the
/// anchor indices and the deltas, each list preceded by its stage count.
#[verifier::opaque]
pub open spec fn spec_model(s: Seq<u8>, pos: usize) -> Result<(ModelView, usize), Error> {
    match spec_version(s, pos) {
        Err(e) => Err(e),
        Ok((_, at0)) => match spec_matrix(s, at0) {
            Err(e) => Err(e),
            Ok((shape, at1)) => match spec_counted(forest_p(), s, at1) {
                Err(e) => Err(e),
                Ok((forests, at2)) => match spec_counted(anchors_p(), s, at2) {
                    Err(e) => Err(e),
                    Ok((anchors, at3)) => match spec_counted(deltas_p(), s, at3) {
                        Err(e) => Err(e),
                        Ok((deltas, q)) => Ok(
                            (
                                ModelView {
                                    initial_shape: shape,
                                    forests,
                                    anchor_idx: anchors,
                                    deltas,
                                },
                                q,
                            ),
                        ),
                    },
                },
            },
        },
    }
}

/// The model encoded at `pos`, if it is well formed; bytes after it are ignored.
pub open spec fn spec_checked_model(s: Seq<u8>, pos: usize) -> Result<ModelView, Error> {
    match spec_model(s, pos) {
        Err(e) => Err(e),
        Ok((m, _)) => if m.well_formed() {
            Ok(m)
        } else {
            Err(Error::MalformedEncoding)
        },
    }
}

/// The model that `s` encodes from its start, if it is well formed.
pub open spec fn spec_parse_shape_predictor(s: Seq<u8>) -> Result<ModelView, Error> {
    spec_checked_model(s, 0)
}

proof fn lemma_many_err<T>(
    p: spec_fn(Seq<u8>, usize) -> Result<(T, usize), Error>,
    s: Seq<u8>,
    pos: usize,
    k: nat,
    n: nat,
)
    requires
        k <= n,
        spec_many(p, s, pos, k) is Err,
    ensures
        spec_many(p, s, pos, n) == spec_many(p, s, pos, k),
    decreases n,
{
    if n > k {
        lemma_many_err(p, s, pos, k, (n - 1) as nat);
    }
}

/// Reads an encoded float at `pos`.
pub fn dlib_float(input: &[u8], pos: usize) -> (r: Result<(Real, usize), Error>)
    requires
        pos <= input@.len(),
    ensures
        r == spec_float(input@, pos),
        r is Ok ==> pos < r->Ok_0.1 <= input@.len(),
{
    let (mantissa, p) = dlib_int(input, pos)?;
    let (exponent, q) = dlib_int(input, p)?;
    Ok((Real { mantissa, exponent }, q))
}

/// Reads an encoded vector at `pos`.
pub fn vector2(input: &[u8], pos: usize) -> (r: Result<(Vector2, usize), Error>)
    requires
        pos <= input@.len(),
    ensures
        r == spec_vector2(input@, pos),
        r is Ok ==> pos < r->Ok_0.1 <= input@.len(),
{
    let (x, p) = dlib_float(input, pos)?;
    let (y, q) = dlib_float(input, p)?;
    Ok((Vector2 { x, y }, q))
}

/// Reads a non-negative encoded integer at `pos`: an anchor index or a count.
pub fn anchor(input: &[u8], pos: usize) -> (r: Result<(u64, usize), Error>)
    requires
        pos <= input@.len(),
    ensures
        r == spec_nonneg(input@, pos),
        r is Ok ==> pos < r->Ok_0.1 <= input@.len(),
{
    let (v, p) = dlib_int(input, pos)?;
    if v < 0 {
        Err(Error::MalformedEncoding)
    } else {
        Ok((v as u64, p))
    }
}

/// Reads a split at `pos`.
pub fn split_feature(input: &[u8], pos: usize) -> (r: Result<(SplitFeature, usize), Error>)
    requires
        pos <= input@.len(),
    ensures
        r == spec_split(input@, pos),
        r is Ok ==> pos < r->Ok_0.1 <= input@.len(),
{
    let (idx1, at1) = anchor(input, pos)?;
    let (idx2, at2) = anchor(input, at1)?;
    let (thresh, q) = dlib_float(input, at2)?;
    Ok((SplitFeature { idx1, idx2, thresh }, q))
}

/// Reads a matrix's rows and columns at `pos`, undoing the negated form.
pub fn matrix_dimensions(input: &[u8], pos: usize) -> (r: Result<((u64, u64), usize), Error>)
    requires
        pos <= input@.len(),
    ensures
        r == spec_dims(input@, pos),
        r is Ok ==> pos < r->Ok_0.1 <= input@.len(),
{
    let (rows, p) = dlib_int(input, pos)?;
    let (cols, q) = dlib_int(input, p)?;
    if rows < 0 || cols < 0 {
        if rows <= 0 && cols <= 0 && rows > i64::MIN && cols > i64::MIN {
            let r = (0 - rows as i128) as u64;
            let c = (0 - cols as i128) as u64;
            Ok(((r, c), q))
        } else {
            Err(Error::MalformedEncoding)
        }
    } else {
        Ok(((rows as u64, cols as u64), q))
    }
}

/// Reads the format version at `pos`; any version but 1 is refused.
pub fn version(input: &[u8], pos: usize) -> (r: Result<(i64, usize), Error>)
    requires
        pos <= input@.len(),
    ensures
        r == spec_version(input@, pos),
        r is Ok ==> pos < r->Ok_0.1 <= input@.len(),
{
    let (v, p) = dlib_int(input, pos)?;
    if v != 1 {
        Err(Error::UnsupportedVersion(v))
    } else {
        Ok((v, p))
    }
}

/// Reads a matrix at `pos`.
pub fn matrix(input: &[u8], pos: usize) -> (r: Result<(Matrix, usize), Error>)
    requires
        pos <= input@.len(),
    ensures
        match r {
            Ok((m, q)) => spec_matrix(input@, pos) == Ok::<(MatrixView, usize), Error>((m@, q))
                && pos < q <= input@.len(),
            Err(e) => spec_matrix(input@, pos) == Err::<(MatrixView, usize), Error>(e),
        },
{
    let ((rows, cols), p) = matrix_dimensions(input, pos)?;
    proof {
        let (a, b) = (rows as int, cols as int);
        assert(a * b <= 0xFFFF_FFFF_FFFF_FFFF * 0xFFFF_FFFF_FFFF_FFFF) by (nonlinear_arith)
            requires
                0 <= a <= 0xFFFF_FFFF_FFFF_FFFF,
                0 <= b <= 0xFFFF_FFFF_FFFF_FFFF,
        ;
    }
    let n: u128 = rows as u128 * cols as u128;
    let mut data: Vec<Real> = Vec::new();
    let mut cur = p;
    let mut i: u128 = 0;
    while i < n
        invariant
            pos < p <= cur <= input@.len(),
            i <= n,
            n == rows * cols,
            spec_dims(input@, pos) == Ok::<((u64, u64), usize), Error>(((rows, cols), p)),
            spec_many(float_p(), input@, p, i as nat) == Ok::<(Seq<Real>, usize), Error>(
                (data@, cur),
            ),
        decreases n - i,
    {
        match dlib_float(input, cur) {
            Ok((x, q)) => {
                data.push(x);
                cur = q;
                i = i + 1;
            },
            Err(e) => {
                proof {
                    lemma_many_err(float_p(), input@, p, (i + 1) as nat, n as nat);
                }
                return Err(e);
            },
        }
    }
    Ok((Matrix { rows, cols, data }, cur))
}


/// Reads a count of splits, then the splits.
fn splits(input: &[u8], pos: usize) -> (r: Result<(Vec<SplitFeature>, usize), Error>)
    requires
        pos <= input@.len(),
    ensures
        match r {
            Ok((v, q)) => spec_counted(split_p(), input@, pos) == Ok::<(Seq<SplitFeature>, usize), Error>((v@, q))
                && pos < q <= input@.len(),
            Err(e) => spec_counted(split_p(), input@, pos) == Err::<(Seq<SplitFeature>, usize), Error>(e),
        },
{
    let (n, p) = anchor(input, pos)?;
    let mut v: Vec<SplitFeature> = Vec::new();
    let mut cur = p;
    let mut i: u64 = 0;
    while i < n
        invariant
            pos < p <= cur <= input@.len(),
            i <= n,
            spec_nonneg(input@, pos) == Ok::<(u64, usize), Error>((n, p)),
            spec_many(split_p(), input@, p, i as nat) == Ok::<(Seq<SplitFeature>, usize), Error>((
                v@,
                cur,
            )),
        decreases n - i,
    {
        match split_feature(input, cur) {
            Ok((x, q)) => {
                v.push(x);
                cur = q;
                i = i + 1;
            },
            Err(e) => {
                proof {
                    lemma_many_err(split_p(), input@, p, (i + 1) as nat, n as nat);
                }
                return Err(e);
            },
        }
    }
    Ok((v, cur))
}

/// Reads a count of leaf matrices, then the matrices.
fn leaves(input: &[u8], pos: usize) -> (r: Result<(Vec<Matrix>, usize), Error>)
    requires
        pos <= input@.len(),
    ensures
        match r {
            Ok((v, q)) => spec_counted(matrix_p(), input@, pos) == Ok::<(Seq<MatrixView>, usize), Error>((matrices_view(v@), q))
                && pos < q <= input@.len(),
            Err(e) => spec_counted(matrix_p(), input@, pos) == Err::<(Seq<MatrixView>, usize), Error>(e),
        },
{
    let (n, p) = anchor(input, pos)?;
    let mut v: Vec<Matrix> = Vec::new();
    let mut cur = p;
    let mut i: u64 = 0;
    proof {
        assert(matrices_view(v@) =~= Seq::<MatrixView>::empty());
    }
    while i < n
        invariant
            pos < p <= cur <= input@.len(),
            i <= n,
            spec_nonneg(input@, pos) == Ok::<(u64, usize), Error>((n, p)),
            spec_many(matrix_p(), input@, p, i as nat) == Ok::<(Seq<MatrixView>, usize), Error>((
                matrices_view(v@),
                cur,
            )),
        decreases n - i,
    {
        match matrix(input, cur) {
            Ok((x, q)) => {
                let ghost old_v = v@;
                v.push(x);
                proof {
                    assert(matrices_view(v@) =~= matrices_view(old_v).push(x@));
                }
                cur = q;
                i = i + 1;
            },
            Err(e) => {
                proof {
                    lemma_many_err(matrix_p(), input@, p, (i + 1) as nat, n as nat);
                }
                return Err(e);
            },
        }
    }
    Ok((v, cur))
}

/// Reads a regression tree at `pos`: its splits, then its leaves.
pub fn regression_tree(input: &[u8], pos: usize) -> (r: Result<(RegressionTree, usize), Error>)
    requires
        pos <= input@.len(),
    ensures
        match r {
            Ok((t, q)) => spec_tree(input@, pos) == Ok::<(TreeView, usize), Error>((t@, q))
                && pos < q <= input@.len(),
            Err(e) => spec_tree(input@, pos) == Err::<(TreeView, usize), Error>(e),
        },
{
    let (splits, p) = splits(input, pos)?;
    let (leaf_values, q) = leaves(input, p)?;
    Ok((RegressionTree { splits, leaf_values }, q))
}

/// Reads a count of trees, then the trees of one stage.
fn forest(input: &[u8], pos: usize) -> (r: Result<(Vec<RegressionTree>, usize), Error>)
    requires
        pos <= input@.len(),
    ensures
        match r {
            Ok((v, q)) => spec_counted(tree_p(), input@, pos) == Ok::<(Seq<TreeView>, usize), Error>((trees_view(v@), q))
                && pos < q <= input@.len(),
            Err(e) => spec_counted(tree_p(), input@, pos) == Err::<(Seq<TreeView>, usize), Error>(e),
        },
{
    let (n, p) = anchor(input, pos)?;
    let mut v: Vec<RegressionTree> = Vec::new();
    let mut cur = p;
    let mut i: u64 = 0;
    proof {
        assert(trees_view(v@) =~= Seq::<TreeView>::empty());
    }
    while i < n
        invariant
            pos < p <= cur <= input@.len(),
            i <= n,
            spec_nonneg(input@, pos) == Ok::<(u64, usize), Error>((n, p)),
            spec_many(tree_p(), input@, p, i as nat) == Ok::<(Seq<TreeView>, usize), Error>((
                trees_view(v@),
                cur,
            )),
        decreases n - i,
    {
        match regression_tree(input, cur) {
            Ok((x, q)) => {
                let ghost old_v = v@;
                v.push(x);
                proof {
                    assert(trees_view(v@) =~= trees_view(old_v).push(x@));
                }
                cur = q;
                i = i + 1;
            },
            Err(e) => {
                proof {
                    lemma_many_err(tree_p(), input@, p, (i + 1) as nat, n as nat);
                }
                return Err(e);
            },
        }
    }
    Ok((v, cur))
}

/// Reads a count of stages, then each stage's forest.
fn forests(input: &[u8], pos: usize) -> (r: Result<(Vec<Vec<RegressionTree>>, usize), Error>)
    requires
        pos <= input@.len(),
    ensures
        match r {
            Ok((v, q)) => spec_counted(forest_p(), input@, pos) == Ok::<(Seq<Seq<TreeView>>, usize), Error>((forests_view(v@), q))
                && pos < q <= input@.len(),
            Err(e) => spec_counted(forest_p(), input@, pos) == Err::<(Seq<Seq<TreeView>>, usize), Error>(e),
        },
{
    let (n, p) = anchor(input, pos)?;
    let mut v: Vec<Vec<RegressionTree>> = Vec::new();
    let mut cur = p;
    let mut i: u64 = 0;
    proof {
        assert(forests_view(v@) =~= Seq::<Seq<TreeView>>::empty());
    }
    while i < n
        invariant
            pos < p <= cur <= input@.len(),
            i <= n,
            spec_nonneg(input@, pos) == Ok::<(u64, usize), Error>((n, p)),
            spec_many(forest_p(), input@, p, i as nat) == Ok::<(Seq<Seq<TreeView>>, usize), Error>((
                forests_view(v@),
                cur,
            )),
        decreases n - i,
    {
        match forest(input, cur) {
            Ok((x, q)) => {
                let ghost old_v = v@;
                v.push(x);
                proof {
                    assert(forests_view(v@) =~= forests_view(old_v).push(trees_view(x@)));
                }
                cur = q;
                i = i + 1;
            },
            Err(e) => {
                proof {
                    lemma_many_err(forest_p(), input@, p, (i + 1) as nat, n as nat);
                }
                return Err(e);
            },
        }
    }
    Ok((v, cur))
}

/// Reads a count of anchor indices, then the indices of one stage.
fn anchor_list(input: &[u8], pos: usize) -> (r: Result<(Vec<u64>, usize), Error>)
    requires
        pos <= input@.len(),
    ensures
        match r {
            Ok((v, q)) => spec_counted(nonneg_p(), input@, pos) == Ok::<(Seq<u64>, usize), Error>((v@, q))
                && pos < q <= input@.len(),
            Err(e) => spec_counted(nonneg_p(), input@, pos) == Err::<(Seq<u64>, usize), Error>(e),
        },
{
    let (n, p) = anchor(input, pos)?;
    let mut v: Vec<u64> = Vec::new();
    let mut cur = p;
    let mut i: u64 = 0;
    while i < n
        invariant
            pos < p <= cur <= input@.len(),
            i <= n,
            spec_nonneg(input@, pos) == Ok::<(u64, usize), Error>((n, p)),
            spec_many(nonneg_p(), input@, p, i as nat) == Ok::<(Seq<u64>, usize), Error>((
                v@,
                cur,
            )),
        decreases n - i,
    {
        match anchor(input, cur) {
            Ok((x, q)) => {
                v.push(x);
                cur = q;
                i = i + 1;
            },
            Err(e) => {
                proof {
                    lemma_many_err(nonneg_p(), input@, p, (i + 1) as nat, n as nat);
                }
                return Err(e);
            },
        }
    }
    Ok((v, cur))
}

/// Reads a count of stages, then each stage's anchor indices.
fn anchor_lists(input: &[u8], pos: usize) -> (r: Result<(Vec<Vec<u64>>, usize), Error>)
    requires
        pos <= input@.len(),
    ensures
        match r {
            Ok((v, q)) => spec_counted(anchors_p(), input@, pos) == Ok::<(Seq<Seq<u64>>, usize), Error>((nested_view(v@), q))
                && pos < q <= input@.len(),
            Err(e) => spec_counted(anchors_p(), input@, pos) == Err::<(Seq<Seq<u64>>, usize), Error>(e),
        },
{
    let (n, p) = anchor(input, pos)?;
    let mut v: Vec<Vec<u64>> = Vec::new();
    let mut cur = p;
    let mut i: u64 = 0;
    proof {
        assert(nested_view(v@) =~= Seq::<Seq<u64>>::empty());
    }
    while i < n
        invariant
            pos < p <= cur <= input@.len(),
            i <= n,
            spec_nonneg(input@, pos) == Ok::<(u64, usize), Error>((n, p)),
            spec_many(anchors_p(), input@, p, i as nat) == Ok::<(Seq<Seq<u64>>, usize), Error>((
                nested_view(v@),
                cur,
            )),
        decreases n - i,
    {
        match anchor_list(input, cur) {
            Ok((x, q)) => {
                let ghost old_v = v@;
                v.push(x);
                proof {
                    assert(nested_view(v@) =~= nested_view(old_v).push(x@));
                }
                cur = q;
                i = i + 1;
            },
            Err(e) => {
                proof {
                    lemma_many_err(anchors_p(), input@, p, (i + 1) as nat, n as nat);
                }
                return Err(e);
            },
        }
    }
    Ok((v, cur))
}

/// Reads a count of deltas, then the deltas of one stage.
fn delta_list(input: &[u8], pos: usize) -> (r: Result<(Vec<Vector2>, usize), Error>)
    requires
        pos <= input@.len(),
    ensures
        match r {
            Ok((v, q)) => spec_counted(vector2_p(), input@, pos) == Ok::<(Seq<Vector2>, usize), Error>((v@, q))
                && pos < q <= input@.len(),
            Err(e) => spec_counted(vector2_p(), input@, pos) == Err::<(Seq<Vector2>, usize), Error>(e),
        },
{
    let (n, p) = anchor(input, pos)?;
    let mut v: Vec<Vector2> = Vec::new();
    let mut cur = p;
    let mut i: u64 = 0;
    while i < n
        invariant
            pos < p <= cur <= input@.len(),
            i <= n,
            spec_nonneg(input@, pos) == Ok::<(u64, usize), Error>((n, p)),
            spec_many(vector2_p(), input@, p, i as nat) == Ok::<(Seq<Vector2>, usize), Error>((
                v@,
                cur,
            )),
        decreases n - i,
    {
        match vector2(input, cur) {
            Ok((x, q)) => {
                v.push(x);
                cur = q;
                i = i + 1;
            },
            Err(e) => {
                proof {
                    lemma_many_err(vector2_p(), input@, p, (i + 1) as nat, n as nat);
                }
                return Err(e);
            },
        }
    }
    Ok((v, cur))
}

/// Reads a count of stages, then each stage's deltas.
fn delta_lists(input: &[u8], pos: usize) -> (r: Result<(Vec<Vec<Vector2>>, usize), Error>)
    requires
        pos <= input@.len(),
    ensures
        match r {
            Ok((v, q)) => spec_counted(deltas_p(), input@, pos) == Ok::<(Seq<Seq<Vector2>>, usize), Error>((nested_view(v@), q))
                && pos < q <= input@.len(),
            Err(e) => spec_counted(deltas_p(), input@, pos) == Err::<(Seq<Seq<Vector2>>, usize), Error>(e),
        },
{
    let (n, p) = anchor(input, pos)?;
    let mut v: Vec<Vec<Vector2>> = Vec::new();
    let mut cur = p;
    let mut i: u64 = 0;
    proof {
        assert(nested_view(v@) =~= Seq::<Seq<Vector2>>::empty());
    }
    while i < n
        invariant
            pos < p <= cur <= input@.len(),
            i <= n,
            spec_nonneg(input@, pos) == Ok::<(u64, usize), Error>((n, p)),
            spec_many(deltas_p(), input@, p, i as nat) == Ok::<(Seq<Seq<Vector2>>, usize), Error>((
                nested_view(v@),
                cur,
            )),
        decreases n - i,
    {
        match delta_list(input, cur) {
            Ok((x, q)) => {
                let ghost old_v = v@;
                v.push(x);
                proof {
                    assert(nested_view(v@) =~= nested_view(old_v).push(x@));
                }
                cur = q;
                i = i + 1;
            },
            Err(e) => {
                proof {
                    lemma_many_err(deltas_p(), input@, p, (i + 1) as nat, n as nat);
                }
                return Err(e);
            },
        }
    }
    Ok((v, cur))
}

/// Reads a whole model at `pos`, without checking that it is well formed.
pub fn shape_predictor(input: &[u8], pos: usize) -> (r: Result<(ShapePredictor, usize), Error>)
    requires
        pos <= input@.len(),
    ensures
        match r {
            Ok((m, q)) => spec_model(input@, pos) == Ok::<(ModelView, usize), Error>((m@, q))
                && pos < q <= input@.len(),
            Err(e) => spec_model(input@, pos) == Err::<(ModelView, usize), Error>(e),
        },
{
    proof {
        reveal(spec_model);
    }
    let (_, at0) = version(input, pos)?;
    let (initial_shape, at1) = matrix(input, at0)?;
    let (forests, at2) = forests(input, at1)?;
    let (anchor_idx, at3) = anchor_lists(input, at2)?;
    let (deltas, q) = delta_lists(input, at3)?;
    Ok((ShapePredictor { initial_shape, forests, anchor_idx, deltas }, q))
}

/// Reads a model at `pos` and checks that it is well formed.
pub fn checked_shape_predictor(input: &[u8], pos: usize) -> (r: Result<ShapePredictor, Error>)
    requires
        pos <= input@.len(),
    ensures
        match r {
            Ok(m) => spec_checked_model(input@, pos) == Ok::<ModelView, Error>(m@),
            Err(e) => spec_checked_model(input@, pos) == Err::<ModelView, Error>(e),
        },
{
    let (m, _) = shape_predictor(input, pos)?;
    if m.is_well_formed() {
        Ok(m)
    } else {
        Err(Error::MalformedEncoding)
    }
}

/// Decodes a model from its wire format and checks that it is well formed.
pub fn parse_shape_predictor(input: &[u8]) -> (r: Result<ShapePredictor, Error>)
    ensures
        match r {
            Ok(m) => spec_parse_shape_predictor(input@) == Ok::<ModelView, Error>(m@),
            Err(e) => spec_parse_shape_predictor(input@) == Err::<ModelView, Error>(e),
        },
{
    checked_shape_predictor(input, 0)
}

/// `s1` and `s2` have the same length and the same bytes from `pos` on.
pub open spec fn agree_from(s1: Seq<u8>, s2: Seq<u8>, pos: int) -> bool {
    &&& s1.len() == s2.len()
    &&& s1.len() <= usize::MAX
    &&& 0 <= pos <= s1.len()
    &&& s1.subrange(pos, s1.len() as int) == s2.subrange(pos, s2.len() as int)
}

proof fn lemma_agree_later(s1: Seq<u8>, s2: Seq<u8>, pos: int, later: int)
    requires
        agree_from(s1, s2, pos),
        pos <= later <= s1.len(),
    ensures
        agree_from(s1, s2, later),
{
    let n = s1.len() as int;
    assert(s1.subrange(later, n) =~= s1.subrange(pos, n).subrange(later - pos, n - pos));
    assert(s2.subrange(later, n) =~= s2.subrange(pos, n).subrange(later - pos, n - pos));
}

proof fn lemma_int_local(s1: Seq<u8>, s2: Seq<u8>, pos: usize)
    requires
        agree_from(s1, s2, pos as int),
    ensures
        spec_int(s1, pos) == spec_int(s2, pos),
        spec_int(s1, pos) is Ok ==> pos < spec_int(s1, pos)->Ok_0.1 <= s1.len(),
{
    let n = s1.len() as int;
    if pos < n {
        assert(s1[pos as int] == s1.subrange(pos as int, n)[0]);
        assert(s2[pos as int] == s2.subrange(pos as int, n)[0]);
        let size = (s1[pos as int] % 16) as int;
        if pos + 1 + size <= n {
            assert(s1.subrange(pos + 1, pos + 1 + size) =~= s1.subrange(pos as int, n).subrange(
                1,
                1 + size,
            ));
            assert(s2.subrange(pos + 1, pos + 1 + size) =~= s2.subrange(pos as int, n).subrange(
                1,
                1 + size,
            ));
        }
    }
}

proof fn lemma_float_local(s1: Seq<u8>, s2: Seq<u8>, pos: usize)
    requires
        agree_from(s1, s2, pos as int),
    ensures
        spec_float(s1, pos) == spec_float(s2, pos),
        spec_float(s1, pos) is Ok ==> pos < spec_float(s1, pos)->Ok_0.1 <= s1.len(),
{
    lemma_int_local(s1, s2, pos);
    if let Ok((_, at)) = spec_int(s1, pos) {
        lemma_agree_later(s1, s2, pos as int, at as int);
        lemma_int_local(s1, s2, at);
    }
}

proof fn lemma_floats_local(s1: Seq<u8>, s2: Seq<u8>, pos: usize, n: nat)
    requires
        agree_from(s1, s2, pos as int),
    ensures
        spec_many(float_p(), s1, pos, n) == spec_many(float_p(), s2, pos, n),
        spec_many(float_p(), s1, pos, n) is Ok ==> pos <= spec_many(float_p(), s1, pos, n)->Ok_0.1
            <= s1.len(),
    decreases n,
{
    if n > 0 {
        lemma_floats_local(s1, s2, pos, (n - 1) as nat);
        if let Ok((_, at)) = spec_many(float_p(), s1, pos, (n - 1) as nat) {
            lemma_agree_later(s1, s2, pos as int, at as int);
            lemma_float_local(s1, s2, at);
        }
    }
}

/// Sign folding: a matrix whose dimensions arrive negated, both together,
/// decodes exactly as the same matrix with its dimensions as they are,
/// whatever the element bytes that follow.
pub proof fn lemma_negated_dimensions(rows: i64, cols: i64, elements: Seq<u8>)
    requires
        0 <= rows,
        0 <= cols,
        18 + elements.len() <= usize::MAX,
    ensures
        spec_matrix(enc_int(rows) + enc_int(cols) + elements, 0) == spec_matrix(
            enc_int((0 - rows) as i64) + enc_int((0 - cols) as i64) + elements,
            0,
        ),
{
    let nr = (0 - rows) as i64;
    let nc = (0 - cols) as i64;
    lemma_enc_int_len(rows);
    lemma_enc_int_len(cols);
    lemma_enc_int_len(nr);
    lemma_enc_int_len(nc);
    let a = enc_int(rows) + enc_int(cols) + elements;
    let b = enc_int(nr) + enc_int(nc) + elements;
    assert(a.subrange(0, a.len() as int) =~= a);
    assert(b.subrange(0, b.len() as int) =~= b);
    lemma_holds_split(a, 0, enc_int(rows) + enc_int(cols), elements);
    lemma_holds_split(a, 0, enc_int(rows), enc_int(cols));
    lemma_holds_split(b, 0, enc_int(nr) + enc_int(nc), elements);
    lemma_holds_split(b, 0, enc_int(nr), enc_int(nc));
    lemma_int_back(a, 0, rows);
    lemma_int_back(a, 9, cols);
    lemma_int_back(b, 0, nr);
    lemma_int_back(b, 9, nc);
    assert(spec_dims(a, 0) == Ok::<((u64, u64), usize), Error>(((rows as u64, cols as u64), 18)));
    assert(spec_dims(b, 0) == Ok::<((u64, u64), usize), Error>(((rows as u64, cols as u64), 18)));
    assert(a.subrange(18, a.len() as int) =~= elements);
    assert(b.subrange(18, b.len() as int) =~= elements);
    lemma_floats_local(a, b, 18, ((rows as u64) * (cols as u64)) as nat);
}

} // verus!
