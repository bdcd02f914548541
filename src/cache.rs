use vstd::prelude::*;

use crate::decoder::{
    anchors_p, be_value, deltas_p, float_p, forest_p, matrix_p, nonneg_p, pow256, spec_counted,
    spec_dims, spec_float, spec_int, spec_many, spec_matrix, spec_model, spec_version, spec_nonneg, spec_split,
    spec_tree, spec_vector2, split_p, tree_p, vector2_p,
};
use crate::decoder::{checked_shape_predictor, spec_checked_model};
use crate::model::{
    forests_view, matrices_view, nested_view, trees_view, Error, Matrix, MatrixView, ModelView,
    Real, RegressionTree, ShapePredictor, SplitFeature, TreeView, Vector2,
};

verus! {

/// The `k` lowest bytes of `n`, most significant first.
pub open spec fn be_bytes(n: nat, k: nat) -> Seq<u8>
    decreases k,
{
    if k == 0 {
        Seq::empty()
    } else {
        be_bytes(n / 256, (k - 1) as nat).push((n % 256) as u8)
    }
}

/// The canonical encoding of an integer: eight magnitude bytes.
pub open spec fn enc_int(v: i64) -> Seq<u8> {
    if v < 0 {
        seq![0x88u8] + be_bytes((-v) as nat, 8)
    } else {
        seq![0x08u8] + be_bytes(v as nat, 8)
    }
}

/// The canonical encoding of a count, an index or a dimension.
pub open spec fn enc_nonneg(v: u64) -> Seq<u8> {
    seq![0x08u8] + be_bytes(v as nat, 8)
}

pub open spec fn enc_real(r: Real) -> Seq<u8> {
    enc_int(r.mantissa) + enc_int(r.exponent)
}

pub open spec fn enc_vector2(v: Vector2) -> Seq<u8> {
    enc_real(v.x) + enc_real(v.y)
}

pub open spec fn enc_split(s: SplitFeature) -> Seq<u8> {
    enc_nonneg(s.idx1) + enc_nonneg(s.idx2) + enc_real(s.thresh)
}

pub open spec fn enc_dims(rows: u64, cols: u64) -> Seq<u8> {
    enc_nonneg(rows) + enc_nonneg(cols)
}

/// `s` holds `e` at `q`, and every position of `s` is a `usize`.
pub open spec fn holds_at(s: Seq<u8>, q: usize, e: Seq<u8>) -> bool {
    &&& s.len() <= usize::MAX
    &&& q + e.len() <= s.len()
    &&& s.subrange(q as int, q + e.len()) == e
}

proof fn lemma_be_bytes(n: nat, k: nat)
    requires
        n < pow256(k),
    ensures
        be_bytes(n, k).len() == k,
        be_value(be_bytes(n, k)) == n,
    decreases k,
{
    if k > 0 {
        let p = pow256((k - 1) as nat);
        let q = n / 256;
        let r = n % 256;
        assert(n == 256 * q + r) by {
            vstd::arithmetic::div_mod::lemma_fundamental_div_mod(n as int, 256);
        }
        assert(q < p) by (nonlinear_arith)
            requires
                n == 256 * q + r,
                0 <= r < 256,
                n < 256 * p,
                q >= 0,
        ;
        lemma_be_bytes(q, (k - 1) as nat);
        assert(be_bytes(n, k).drop_last() == be_bytes(q, (k - 1) as nat));
    }
}

/// The two parts of `a + b` held at `q` are held at `q` and right after.
pub(crate) proof fn lemma_holds_split(s: Seq<u8>, q: usize, a: Seq<u8>, b: Seq<u8>)
    requires
        holds_at(s, q, a + b),
    ensures
        holds_at(s, q, a),
        holds_at(s, (q + a.len()) as usize, b),
{
    assert(s.subrange(q as int, q + a.len()) =~= (a + b).subrange(0, a.len() as int));
    assert((a + b).subrange(0, a.len() as int) =~= a);
    assert(s.subrange(q + a.len(), q + a.len() + b.len()) =~= (a + b).subrange(
        a.len() as int,
        (a.len() + b.len()) as int,
    ));
    assert((a + b).subrange(a.len() as int, (a.len() + b.len()) as int) =~= b);
}

proof fn lemma_pow256_8()
    ensures
        pow256(8) == 0x1_0000_0000_0000_0000,
{
    reveal_with_fuel(pow256, 9);
}

pub(crate) proof fn lemma_enc_int_len(v: i64)
    ensures
        enc_int(v).len() == 9,
{
    lemma_pow256_8();
    let mag: nat = if v < 0 { (-v) as nat } else { v as nat };
    lemma_be_bytes(mag, 8);
}

pub(crate) proof fn lemma_int_back(s: Seq<u8>, q: usize, v: i64)
    requires
        holds_at(s, q, enc_int(v)),
    ensures
        enc_int(v).len() == 9,
        spec_int(s, q) == Ok::<(i64, usize), Error>((v, (q + 9) as usize)),
{
    lemma_pow256_8();
    let mag: nat = if v < 0 { (-v) as nat } else { v as nat };
    lemma_be_bytes(mag, 8);
    let c: u8 = if v < 0 { 0x88 } else { 0x08 };
    assert(enc_int(v) == seq![c] + be_bytes(mag, 8));
    lemma_holds_split(s, q, seq![c], be_bytes(mag, 8));
    assert(s[q as int] == s.subrange(q as int, q + 1)[0]);
    assert(s[q as int] == c);
    assert(c % 16 == 8);
}

proof fn lemma_nonneg_back(s: Seq<u8>, q: usize, v: u64)
    requires
        holds_at(s, q, enc_nonneg(v)),
        v <= i64::MAX,
    ensures
        enc_nonneg(v).len() == 9,
        spec_nonneg(s, q) == Ok::<(u64, usize), Error>((v, (q + 9) as usize)),
{
    assert(enc_nonneg(v) == enc_int(v as i64));
    lemma_int_back(s, q, v as i64);
}

proof fn lemma_real_back(s: Seq<u8>, q: usize, r: Real)
    requires
        holds_at(s, q, enc_real(r)),
    ensures
        enc_real(r).len() == 18,
        spec_float(s, q) == Ok::<(Real, usize), Error>((r, (q + 18) as usize)),
{
    lemma_holds_split(s, q, enc_int(r.mantissa), enc_int(r.exponent));
    lemma_int_back(s, q, r.mantissa);
    lemma_int_back(s, (q + 9) as usize, r.exponent);
}

proof fn lemma_vector2_back(s: Seq<u8>, q: usize, v: Vector2)
    requires
        holds_at(s, q, enc_vector2(v)),
    ensures
        enc_vector2(v).len() == 36,
        spec_vector2(s, q) == Ok::<(Vector2, usize), Error>((v, (q + 36) as usize)),
{
    lemma_holds_split(s, q, enc_real(v.x), enc_real(v.y));
    lemma_real_back(s, q, v.x);
    lemma_real_back(s, (q + 18) as usize, v.y);
}

proof fn lemma_split_back(s: Seq<u8>, q: usize, sp: SplitFeature)
    requires
        holds_at(s, q, enc_split(sp)),
        sp.idx1 <= i64::MAX,
        sp.idx2 <= i64::MAX,
    ensures
        enc_split(sp).len() == 36,
        spec_split(s, q) == Ok::<(SplitFeature, usize), Error>((sp, (q + 36) as usize)),
{
    let a = enc_nonneg(sp.idx1);
    let b = enc_nonneg(sp.idx2);
    let c = enc_real(sp.thresh);
    lemma_holds_split(s, q, a + b, c);
    lemma_holds_split(s, q, a, b);
    lemma_nonneg_back(s, q, sp.idx1);
    lemma_nonneg_back(s, (q + 9) as usize, sp.idx2);
    lemma_real_back(s, (q + 18) as usize, sp.thresh);
}

proof fn lemma_dims_back(s: Seq<u8>, q: usize, rows: u64, cols: u64)
    requires
        holds_at(s, q, enc_dims(rows, cols)),
        rows <= i64::MAX,
        cols <= i64::MAX,
    ensures
        enc_dims(rows, cols).len() == 18,
        spec_dims(s, q) == Ok::<((u64, u64), usize), Error>(((rows, cols), (q + 18) as usize)),
{
    lemma_holds_split(s, q, enc_nonneg(rows), enc_nonneg(cols));
    lemma_int_back(s, q, rows as i64);
    lemma_int_back(s, (q + 9) as usize, cols as i64);
    assert(enc_nonneg(rows) == enc_int(rows as i64));
    assert(enc_nonneg(cols) == enc_int(cols as i64));
}

/// The encodings of `xs`, one after another.
pub open spec fn enc_many<T>(enc: spec_fn(T) -> Seq<u8>, xs: Seq<T>) -> Seq<u8>
    decreases xs.len(),
{
    if xs.len() == 0 {
        Seq::empty()
    } else {
        enc_many(enc, xs.drop_last()) + enc(xs.last())
    }
}

/// The count of `xs`, then their encodings.
pub open spec fn enc_counted<T>(enc: spec_fn(T) -> Seq<u8>, xs: Seq<T>) -> Seq<u8> {
    enc_nonneg(xs.len() as u64) + enc_many(enc, xs)
}

/// `p` reads back every valid value that `enc` wrote, wherever it stands.
pub open spec fn parses_back<T>(
    p: spec_fn(Seq<u8>, usize) -> Result<(T, usize), Error>,
    enc: spec_fn(T) -> Seq<u8>,
    valid: spec_fn(T) -> bool,
) -> bool {
    forall|s: Seq<u8>, q: usize, x: T|
        #![trigger p(s, q), enc(x)]
        valid(x) && holds_at(s, q, enc(x)) ==> p(s, q) == Ok::<(T, usize), Error>(
            (x, (q + enc(x).len()) as usize),
        )
}

proof fn lemma_many_back<T>(
    p: spec_fn(Seq<u8>, usize) -> Result<(T, usize), Error>,
    enc: spec_fn(T) -> Seq<u8>,
    valid: spec_fn(T) -> bool,
    s: Seq<u8>,
    q: usize,
    xs: Seq<T>,
)
    requires
        parses_back(p, enc, valid),
        forall|i: int| 0 <= i < xs.len() ==> #[trigger] valid(xs[i]),
        holds_at(s, q, enc_many(enc, xs)),
    ensures
        spec_many(p, s, q, xs.len()) == Ok::<(Seq<T>, usize), Error>(
            (xs, (q + enc_many(enc, xs).len()) as usize),
        ),
    decreases xs.len(),
{
    if xs.len() > 0 {
        let init = xs.drop_last();
        lemma_holds_split(s, q, enc_many(enc, init), enc(xs.last()));
        assert forall|i: int| 0 <= i < init.len() implies #[trigger] valid(init[i]) by {
            assert(init[i] == xs[i]);
        }
        lemma_many_back(p, enc, valid, s, q, init);
        assert(valid(xs[xs.len() - 1]));
        let q1 = (q + enc_many(enc, init).len()) as usize;
        let x = xs.last();
        assert(valid(x) && holds_at(s, q1, enc(x)));
        assert(p(s, q1) == Ok::<(T, usize), Error>((x, (q1 + enc(x).len()) as usize)));
        assert(init.push(xs.last()) =~= xs);
    } else {
        assert(xs =~= Seq::<T>::empty());
    }
}

proof fn lemma_counted_back<T>(
    p: spec_fn(Seq<u8>, usize) -> Result<(T, usize), Error>,
    enc: spec_fn(T) -> Seq<u8>,
    valid: spec_fn(T) -> bool,
    s: Seq<u8>,
    q: usize,
    xs: Seq<T>,
)
    requires
        parses_back(p, enc, valid),
        forall|i: int| 0 <= i < xs.len() ==> #[trigger] valid(xs[i]),
        xs.len() <= i64::MAX,
        holds_at(s, q, enc_counted(enc, xs)),
    ensures
        spec_counted(p, s, q) == Ok::<(Seq<T>, usize), Error>(
            (xs, (q + enc_counted(enc, xs).len()) as usize),
        ),
{
    lemma_holds_split(s, q, enc_nonneg(xs.len() as u64), enc_many(enc, xs));
    lemma_nonneg_back(s, q, xs.len() as u64);
    lemma_many_back(p, enc, valid, s, (q + 9) as usize, xs);
}

pub open spec fn real_enc() -> spec_fn(Real) -> Seq<u8> {
    |r: Real| enc_real(r)
}

pub open spec fn vector2_enc() -> spec_fn(Vector2) -> Seq<u8> {
    |v: Vector2| enc_vector2(v)
}

pub open spec fn split_enc() -> spec_fn(SplitFeature) -> Seq<u8> {
    |sp: SplitFeature| enc_split(sp)
}

pub open spec fn nonneg_enc() -> spec_fn(u64) -> Seq<u8> {
    |v: u64| enc_nonneg(v)
}

/// A matrix: rows, columns, then its elements.
pub open spec fn enc_matrix(m: MatrixView) -> Seq<u8> {
    enc_dims(m.rows, m.cols) + enc_many(real_enc(), m.data)
}

pub open spec fn matrix_enc() -> spec_fn(MatrixView) -> Seq<u8> {
    |m: MatrixView| enc_matrix(m)
}

/// A tree: counted splits, then counted leaves.
pub open spec fn enc_tree(t: TreeView) -> Seq<u8> {
    enc_counted(split_enc(), t.splits) + enc_counted(matrix_enc(), t.leaf_values)
}

pub open spec fn tree_enc() -> spec_fn(TreeView) -> Seq<u8> {
    |t: TreeView| enc_tree(t)
}

pub open spec fn forest_enc() -> spec_fn(Seq<TreeView>) -> Seq<u8> {
    |f: Seq<TreeView>| enc_counted(tree_enc(), f)
}

pub open spec fn anchors_enc() -> spec_fn(Seq<u64>) -> Seq<u8> {
    |a: Seq<u64>| enc_counted(nonneg_enc(), a)
}

pub open spec fn deltas_enc() -> spec_fn(Seq<Vector2>) -> Seq<u8> {
    |d: Seq<Vector2>| enc_counted(vector2_enc(), d)
}

/// A model in canonical form: version 1, the initial shape, then the stages'
/// forests, anchors and deltas, each list counted.
pub open spec fn enc_model(m: ModelView) -> Seq<u8> {
    enc_int(1) + enc_matrix(m.initial_shape) + enc_stages(m)
}

/// The stages: counted forests, counted anchor lists, counted delta lists.
pub open spec fn enc_stages(m: ModelView) -> Seq<u8> {
    enc_counted(forest_enc(), m.forests) + enc_counted(anchors_enc(), m.anchor_idx)
        + enc_counted(deltas_enc(), m.deltas)
}

/// The largest value that the format's integers carry.
pub open spec fn carried(v: nat) -> bool {
    v <= i64::MAX
}

pub open spec fn any_real() -> spec_fn(Real) -> bool {
    |r: Real| true
}

pub open spec fn any_vector2() -> spec_fn(Vector2) -> bool {
    |v: Vector2| true
}

pub open spec fn split_carried() -> spec_fn(SplitFeature) -> bool {
    |sp: SplitFeature| carried(sp.idx1 as nat) && carried(sp.idx2 as nat)
}

pub open spec fn nonneg_carried() -> spec_fn(u64) -> bool {
    |v: u64| carried(v as nat)
}

pub open spec fn matrix_carried() -> spec_fn(MatrixView) -> bool {
    |m: MatrixView| m.well_formed() && carried(m.rows as nat) && carried(m.cols as nat)
}

pub open spec fn tree_carried() -> spec_fn(TreeView) -> bool {
    |t: TreeView|
        carried(t.splits.len()) && carried(t.leaf_values.len()) && (forall|i: int|
            0 <= i < t.splits.len() ==> #[trigger] split_carried()(t.splits[i])) && (forall|
            j: int,
        |
            0 <= j < t.leaf_values.len() ==> #[trigger] matrix_carried()(t.leaf_values[j]))
}

pub open spec fn forest_carried() -> spec_fn(Seq<TreeView>) -> bool {
    |f: Seq<TreeView>|
        carried(f.len()) && forall|i: int| 0 <= i < f.len() ==> #[trigger] tree_carried()(f[i])
}

pub open spec fn anchors_carried() -> spec_fn(Seq<u64>) -> bool {
    |a: Seq<u64>|
        carried(a.len()) && forall|i: int| 0 <= i < a.len() ==> #[trigger] nonneg_carried()(a[i])
}

pub open spec fn deltas_carried() -> spec_fn(Seq<Vector2>) -> bool {
    |d: Seq<Vector2>| carried(d.len())
}

proof fn lemma_matrix_back(s: Seq<u8>, q: usize, m: MatrixView)
    requires
        matrix_carried()(m),
        holds_at(s, q, enc_matrix(m)),
    ensures
        spec_matrix(s, q) == Ok::<(MatrixView, usize), Error>(
            (m, (q + enc_matrix(m).len()) as usize),
        ),
{
    lemma_holds_split(s, q, enc_dims(m.rows, m.cols), enc_many(real_enc(), m.data));
    lemma_dims_back(s, q, m.rows, m.cols);
    assert forall|s1: Seq<u8>, q1: usize, r: Real|
        #![trigger float_p()(s1, q1), real_enc()(r)]
        any_real()(r) && holds_at(s1, q1, real_enc()(r)) implies float_p()(s1, q1)
        == Ok::<(Real, usize), Error>((r, (q1 + real_enc()(r).len()) as usize)) by {
        lemma_real_back(s1, q1, r);
    }
    assert(parses_back(float_p(), real_enc(), any_real()));
    lemma_many_back(float_p(), real_enc(), any_real(), s, (q + 18) as usize, m.data);
}

proof fn lemma_matrices_parse_back()
    ensures
        parses_back(matrix_p(), matrix_enc(), matrix_carried()),
{
    assert forall|s1: Seq<u8>, q1: usize, m: MatrixView|
        #![trigger matrix_p()(s1, q1), matrix_enc()(m)]
        matrix_carried()(m) && holds_at(s1, q1, matrix_enc()(m)) implies matrix_p()(
        s1,
        q1,
    ) == Ok::<(MatrixView, usize), Error>((m, (q1 + matrix_enc()(m).len()) as usize)) by {
        lemma_matrix_back(s1, q1, m);
    }
}

proof fn lemma_tree_back(s: Seq<u8>, q: usize, t: TreeView)
    requires
        tree_carried()(t),
        holds_at(s, q, enc_tree(t)),
    ensures
        spec_tree(s, q) == Ok::<(TreeView, usize), Error>((t, (q + enc_tree(t).len()) as usize)),
{
    let a = enc_counted(split_enc(), t.splits);
    let b = enc_counted(matrix_enc(), t.leaf_values);
    lemma_holds_split(s, q, a, b);
    assert forall|s1: Seq<u8>, q1: usize, sp: SplitFeature|
        #![trigger split_p()(s1, q1), split_enc()(sp)]
        split_carried()(sp) && holds_at(s1, q1, split_enc()(sp)) implies split_p()(
        s1,
        q1,
    ) == Ok::<(SplitFeature, usize), Error>((sp, (q1 + split_enc()(sp).len()) as usize)) by {
        lemma_split_back(s1, q1, sp);
    }
    lemma_matrices_parse_back();
    lemma_counted_back(split_p(), split_enc(), split_carried(), s, q, t.splits);
    lemma_counted_back(
        matrix_p(),
        matrix_enc(),
        matrix_carried(),
        s,
        (q + a.len()) as usize,
        t.leaf_values,
    );
}

proof fn lemma_forests_parse_back()
    ensures
        parses_back(forest_p(), forest_enc(), forest_carried()),
{
    assert forall|s1: Seq<u8>, q1: usize, t: TreeView|
        #![trigger tree_p()(s1, q1), tree_enc()(t)]
        tree_carried()(t) && holds_at(s1, q1, tree_enc()(t)) implies tree_p()(s1, q1)
        == Ok::<(TreeView, usize), Error>((t, (q1 + tree_enc()(t).len()) as usize)) by {
        lemma_tree_back(s1, q1, t);
    }
    assert forall|s1: Seq<u8>, q1: usize, f: Seq<TreeView>|
        #![trigger forest_p()(s1, q1), forest_enc()(f)]
        forest_carried()(f) && holds_at(s1, q1, forest_enc()(f)) implies forest_p()(
        s1,
        q1,
    ) == Ok::<(Seq<TreeView>, usize), Error>((f, (q1 + forest_enc()(f).len()) as usize)) by {
        lemma_counted_back(tree_p(), tree_enc(), tree_carried(), s1, q1, f);
    }
}

proof fn lemma_lists_parse_back()
    ensures
        parses_back(anchors_p(), anchors_enc(), anchors_carried()),
        parses_back(deltas_p(), deltas_enc(), deltas_carried()),
{
    assert forall|s1: Seq<u8>, q1: usize, v: u64|
        #![trigger nonneg_p()(s1, q1), nonneg_enc()(v)]
        nonneg_carried()(v) && holds_at(s1, q1, nonneg_enc()(v)) implies nonneg_p()(
        s1,
        q1,
    ) == Ok::<(u64, usize), Error>((v, (q1 + nonneg_enc()(v).len()) as usize)) by {
        lemma_nonneg_back(s1, q1, v);
    }
    assert forall|s1: Seq<u8>, q1: usize, a: Seq<u64>|
        #![trigger anchors_p()(s1, q1), anchors_enc()(a)]
        anchors_carried()(a) && holds_at(s1, q1, anchors_enc()(a)) implies anchors_p()(
        s1,
        q1,
    ) == Ok::<(Seq<u64>, usize), Error>((a, (q1 + anchors_enc()(a).len()) as usize)) by {
        lemma_counted_back(nonneg_p(), nonneg_enc(), nonneg_carried(), s1, q1, a);
    }
    assert forall|s1: Seq<u8>, q1: usize, v: Vector2|
        #![trigger vector2_p()(s1, q1), vector2_enc()(v)]
        any_vector2()(v) && holds_at(s1, q1, vector2_enc()(v)) implies vector2_p()(
        s1,
        q1,
    ) == Ok::<(Vector2, usize), Error>((v, (q1 + vector2_enc()(v).len()) as usize)) by {
        lemma_vector2_back(s1, q1, v);
    }
    assert forall|s1: Seq<u8>, q1: usize, d: Seq<Vector2>|
        #![trigger deltas_p()(s1, q1), deltas_enc()(d)]
        deltas_carried()(d) && holds_at(s1, q1, deltas_enc()(d)) implies deltas_p()(
        s1,
        q1,
    ) == Ok::<(Seq<Vector2>, usize), Error>((d, (q1 + deltas_enc()(d).len()) as usize)) by {
        lemma_counted_back(vector2_p(), vector2_enc(), any_vector2(), s1, q1, d);
    }
}

/// Every count and anchor index of `m` is one that the format's integers
/// carry.
pub open spec fn representable(m: ModelView) -> bool {
    &&& carried(m.forests.len()) && carried(m.anchor_idx.len()) && carried(m.deltas.len())
    &&& forall|s: int| 0 <= s < m.forests.len() ==> carried(#[trigger] m.forests[s].len())
    &&& forall|s: int| 0 <= s < m.anchor_idx.len() ==> carried(#[trigger] m.anchor_idx[s].len())
    &&& forall|s: int| 0 <= s < m.deltas.len() ==> carried(#[trigger] m.deltas[s].len())
    &&& forall|s: int, a: int|
        0 <= s < m.anchor_idx.len() && 0 <= a < m.anchor_idx[s].len() ==> carried(
            #[trigger] m.anchor_idx[s][a] as nat,
        )
    &&& forall|s: int, t: int|
        0 <= s < m.forests.len() && 0 <= t < m.forests[s].len() ==> carried(
            #[trigger] m.forests[s][t].splits.len(),
        ) && carried(m.forests[s][t].leaf_values.len())
}

proof fn lemma_forests_carried(m: ModelView)
    requires
        m.well_formed(),
        representable(m),
    ensures
        forall|i: int| 0 <= i < m.forests.len() ==> #[trigger] forest_carried()(m.forests[i]),
{
    assert forall|i: int| 0 <= i < m.forests.len() implies #[trigger] forest_carried()(
        m.forests[i],
    ) by {
        assert(m.stage_well_formed(i));
        let f = m.forests[i];
        assert forall|t: int| 0 <= t < f.len() implies #[trigger] tree_carried()(f[t]) by {
            let tr = f[t];
            assert(tr.well_formed(m.anchor_idx[i].len(), m.initial_shape.data.len()));
            assert(carried(tr.splits.len()) && carried(tr.leaf_values.len()));
            assert forall|k: int| 0 <= k < tr.splits.len() implies #[trigger] split_carried()(
                tr.splits[k],
            ) by {
                assert(carried(m.anchor_idx[i].len()));
            }
            assert forall|j: int| 0 <= j < tr.leaf_values.len() implies #[trigger] matrix_carried()(
                tr.leaf_values[j],
            ) by {
                assert(tr.leaf_values[j].well_formed());
            }
        }
    }
}

proof fn lemma_lists_carried(m: ModelView)
    requires
        representable(m),
    ensures
        forall|i: int|
            0 <= i < m.anchor_idx.len() ==> #[trigger] anchors_carried()(m.anchor_idx[i]),
        forall|i: int| 0 <= i < m.deltas.len() ==> #[trigger] deltas_carried()(m.deltas[i]),
{
    assert forall|i: int| 0 <= i < m.anchor_idx.len() implies #[trigger] anchors_carried()(
        m.anchor_idx[i],
    ) by {
        let an = m.anchor_idx[i];
        assert(carried(an.len()));
        assert forall|k: int| 0 <= k < an.len() implies #[trigger] nonneg_carried()(an[k]) by {
            assert(carried(m.anchor_idx[i][k] as nat));
        }
    }
    assert forall|i: int| 0 <= i < m.deltas.len() implies #[trigger] deltas_carried()(
        m.deltas[i],
    ) by {
        assert(carried(m.deltas[i].len()));
    }
}

proof fn lemma_stages_back(s: Seq<u8>, q: usize, m: ModelView)
    requires
        m.well_formed(),
        representable(m),
        holds_at(s, q, enc_stages(m)),
    ensures
        ({
            let c = enc_counted(forest_enc(), m.forests);
            let d = enc_counted(anchors_enc(), m.anchor_idx);
            let e = enc_counted(deltas_enc(), m.deltas);
            &&& spec_counted(forest_p(), s, q) == Ok::<(Seq<Seq<TreeView>>, usize), Error>(
                (m.forests, (q + c.len()) as usize),
            )
            &&& spec_counted(anchors_p(), s, (q + c.len()) as usize) == Ok::<
                (Seq<Seq<u64>>, usize),
                Error,
            >((m.anchor_idx, (q + c.len() + d.len()) as usize))
            &&& spec_counted(deltas_p(), s, (q + c.len() + d.len()) as usize) == Ok::<
                (Seq<Seq<Vector2>>, usize),
                Error,
            >((m.deltas, (q + c.len() + d.len() + e.len()) as usize))
        }),
{
    let c = enc_counted(forest_enc(), m.forests);
    let d = enc_counted(anchors_enc(), m.anchor_idx);
    let e = enc_counted(deltas_enc(), m.deltas);
    lemma_holds_split(s, q, c + d, e);
    lemma_holds_split(s, q, c, d);
    lemma_forests_parse_back();
    lemma_lists_parse_back();
    lemma_forests_carried(m);
    lemma_lists_carried(m);
    lemma_counted_back(forest_p(), forest_enc(), forest_carried(), s, q, m.forests);
    lemma_counted_back(
        anchors_p(),
        anchors_enc(),
        anchors_carried(),
        s,
        (q + c.len()) as usize,
        m.anchor_idx,
    );
    lemma_counted_back(
        deltas_p(),
        deltas_enc(),
        deltas_carried(),
        s,
        (q + c.len() + d.len()) as usize,
        m.deltas,
    );
}

proof fn lemma_model_compose(
    s: Seq<u8>,
    q: usize,
    m: ModelView,
    at1: usize,
    at2: usize,
    at3: usize,
    at4: usize,
    at5: usize,
)
    requires
        spec_version(s, q) == Ok::<(i64, usize), Error>((1, at1)),
        spec_matrix(s, at1) == Ok::<(MatrixView, usize), Error>((m.initial_shape, at2)),
        spec_counted(forest_p(), s, at2) == Ok::<(Seq<Seq<TreeView>>, usize), Error>(
            (m.forests, at3),
        ),
        spec_counted(anchors_p(), s, at3) == Ok::<(Seq<Seq<u64>>, usize), Error>(
            (m.anchor_idx, at4),
        ),
        spec_counted(deltas_p(), s, at4) == Ok::<(Seq<Seq<Vector2>>, usize), Error>(
            (m.deltas, at5),
        ),
    ensures
        spec_model(s, q) == Ok::<(ModelView, usize), Error>((m, at5)),
{
    reveal(spec_model);
}

/// The version and the initial shape, read back.
proof fn lemma_head_back(s: Seq<u8>, q: usize, shape: MatrixView)
    requires
        shape.well_formed(),
        holds_at(s, q, enc_int(1) + enc_matrix(shape)),
    ensures
        spec_version(s, q) == Ok::<(i64, usize), Error>((1, (q + 9) as usize)),
        spec_matrix(s, (q + 9) as usize) == Ok::<(MatrixView, usize), Error>(
            (shape, (q + (enc_int(1) + enc_matrix(shape)).len()) as usize),
        ),
{
    lemma_holds_split(s, q, enc_int(1), enc_matrix(shape));
    lemma_int_back(s, q, 1);
    lemma_matrix_back(s, (q + 9) as usize, shape);
}

proof fn lemma_model_back(s: Seq<u8>, q: usize, m: ModelView)
    requires
        m.well_formed(),
        representable(m),
        holds_at(s, q, enc_model(m)),
    ensures
        spec_model(s, q) == Ok::<(ModelView, usize), Error>((m, (q + enc_model(m).len()) as usize)),
{
    let head = enc_int(1) + enc_matrix(m.initial_shape);
    lemma_holds_split(s, q, head, enc_stages(m));
    lemma_head_back(s, q, m.initial_shape);
    let at2 = (q + head.len()) as usize;
    lemma_stages_back(s, at2, m);
    let c = enc_counted(forest_enc(), m.forests).len();
    let d = enc_counted(anchors_enc(), m.anchor_idx).len();
    let e = enc_counted(deltas_enc(), m.deltas).len();
    lemma_model_compose(
        s,
        q,
        m,
        (q + 9) as usize,
        at2,
        (at2 + c) as usize,
        (at2 + c + d) as usize,
        (at2 + c + d + e) as usize,
    );
}

/// The four bytes that open a cached model.
pub open spec fn cache_magic() -> Seq<u8> {
    seq![0x53u8, 0x50u8, 0x43u8, 0x48u8]
}

/// A cached model: the magic bytes, then the model in canonical form.
#[verifier::opaque]
pub open spec fn spec_serialize(m: ModelView) -> Seq<u8> {
    cache_magic() + enc_model(m)
}

/// The model that a cache holds, if the cache opens with the magic bytes and
/// holds a well-formed model of version 1; bytes after the model are ignored.
#[verifier::opaque]
pub open spec fn spec_deserialize(s: Seq<u8>) -> Result<ModelView, Error> {
    if s.len() < 4 {
        Err(Error::TruncatedInput((4 - s.len()) as usize))
    } else if s.subrange(0, 4) != cache_magic() {
        Err(Error::MalformedEncoding)
    } else {
        spec_checked_model(s, 4)
    }
}

proof fn lemma_enc_nonneg_len(v: u64)
    ensures
        enc_nonneg(v).len() == 9,
{
    lemma_pow256_8();
    lemma_be_bytes(v as nat, 8);
}

/// A sequence of encodings of at least 9 bytes each is at least 9 bytes per
/// item long, and holds each encoding whole.
proof fn lemma_many_bounds<T>(enc: spec_fn(T) -> Seq<u8>, xs: Seq<T>)
    requires
        forall|i: int| 0 <= i < xs.len() ==> (#[trigger] enc(xs[i])).len() >= 9,
    ensures
        enc_many(enc, xs).len() >= 9 * xs.len(),
        forall|i: int|
            0 <= i < xs.len() ==> (#[trigger] enc(xs[i])).len() <= enc_many(enc, xs).len(),
    decreases xs.len(),
{
    if xs.len() > 0 {
        let init = xs.drop_last();
        assert forall|i: int| 0 <= i < init.len() implies (#[trigger] enc(init[i])).len() >= 9 by {
            assert(init[i] == xs[i]);
        }
        lemma_many_bounds(enc, init);
        assert(enc(xs[xs.len() - 1]).len() >= 9);
        assert forall|i: int| 0 <= i < xs.len() implies (#[trigger] enc(xs[i])).len()
            <= enc_many(enc, xs).len() by {
            if i < xs.len() - 1 {
                assert(init[i] == xs[i]);
                assert(enc(init[i]).len() <= enc_many(enc, init).len());
            }
        }
    }
}

proof fn lemma_counted_bounds<T>(enc: spec_fn(T) -> Seq<u8>, xs: Seq<T>)
    requires
        forall|i: int| 0 <= i < xs.len() ==> (#[trigger] enc(xs[i])).len() >= 9,
    ensures
        enc_counted(enc, xs).len() >= 9 + 9 * xs.len(),
        forall|i: int|
            0 <= i < xs.len() ==> (#[trigger] enc(xs[i])).len() <= enc_counted(enc, xs).len(),
{
    lemma_enc_nonneg_len(xs.len() as u64);
    lemma_many_bounds(enc, xs);
}

proof fn lemma_real_len(r: Real)
    ensures
        enc_real(r).len() == 18,
{
    lemma_enc_int_len(r.mantissa);
    lemma_enc_int_len(r.exponent);
}

/// A matrix's encoding is at least 18 bytes, and 18 more per element.
proof fn lemma_matrix_len(m: MatrixView)
    ensures
        enc_matrix(m).len() >= 18 + 9 * m.data.len(),
{
    lemma_enc_nonneg_len(m.rows);
    lemma_enc_nonneg_len(m.cols);
    assert forall|i: int| 0 <= i < m.data.len() implies (#[trigger] real_enc()(m.data[i])).len()
        >= 9 by {
        lemma_real_len(m.data[i]);
    }
    lemma_many_bounds(real_enc(), m.data);
}

/// A tree's encoding is at least 18 bytes, and 9 more per split and per leaf.
proof fn lemma_tree_len(t: TreeView)
    ensures
        enc_tree(t).len() >= 18 + 9 * t.splits.len(),
        enc_tree(t).len() >= 18 + 9 * t.leaf_values.len(),
{
    assert forall|i: int| 0 <= i < t.splits.len() implies (#[trigger] split_enc()(
        t.splits[i],
    )).len() >= 9 by {
        let sp = t.splits[i];
        lemma_enc_nonneg_len(sp.idx1);
        lemma_enc_nonneg_len(sp.idx2);
        lemma_real_len(sp.thresh);
    }
    assert forall|j: int| 0 <= j < t.leaf_values.len() implies (#[trigger] matrix_enc()(
        t.leaf_values[j],
    )).len() >= 9 by {
        lemma_matrix_len(t.leaf_values[j]);
    }
    lemma_counted_bounds(split_enc(), t.splits);
    lemma_counted_bounds(matrix_enc(), t.leaf_values);
}

proof fn lemma_small_carried(n: nat, total: nat)
    requires
        9 * n <= total,
        total <= usize::MAX,
    ensures
        carried(n),
{
}

proof fn lemma_forest_bounds(f: Seq<TreeView>)
    ensures
        forest_enc()(f).len() >= 9 + 9 * f.len(),
        forall|t: int| 0 <= t < f.len() ==> (#[trigger] tree_enc()(f[t])).len() <= forest_enc()(
            f,
        ).len(),
{
    assert forall|t: int| 0 <= t < f.len() implies (#[trigger] tree_enc()(f[t])).len() >= 9 by {
        lemma_tree_len(f[t]);
    }
    lemma_counted_bounds(tree_enc(), f);
}

proof fn lemma_forests_representable(m: ModelView)
    requires
        enc_counted(forest_enc(), m.forests).len() <= usize::MAX,
    ensures
        carried(m.forests.len()),
        forall|s: int| 0 <= s < m.forests.len() ==> carried(#[trigger] m.forests[s].len()),
        forall|s: int, t: int|
            0 <= s < m.forests.len() && 0 <= t < m.forests[s].len() ==> carried(
                #[trigger] m.forests[s][t].splits.len(),
            ) && carried(m.forests[s][t].leaf_values.len()),
{
    let total = enc_counted(forest_enc(), m.forests).len();
    assert forall|s: int| 0 <= s < m.forests.len() implies (#[trigger] forest_enc()(
        m.forests[s],
    )).len() >= 9 by {
        lemma_forest_bounds(m.forests[s]);
    }
    lemma_counted_bounds(forest_enc(), m.forests);
    lemma_small_carried(m.forests.len(), total);
    assert forall|s: int| 0 <= s < m.forests.len() implies carried(
        #[trigger] m.forests[s].len(),
    ) by {
        assert(forest_enc()(m.forests[s]).len() <= total);
        lemma_forest_bounds(m.forests[s]);
        lemma_small_carried(m.forests[s].len(), total);
    }
    assert forall|s: int, t: int|
        0 <= s < m.forests.len() && 0 <= t < m.forests[s].len() implies carried(
        #[trigger] m.forests[s][t].splits.len(),
    ) && carried(m.forests[s][t].leaf_values.len()) by {
        let tr = m.forests[s][t];
        assert(forest_enc()(m.forests[s]).len() <= total);
        lemma_forest_bounds(m.forests[s]);
        assert(tree_enc()(tr).len() <= total);
        lemma_tree_len(tr);
        lemma_small_carried(tr.splits.len(), total);
        lemma_small_carried(tr.leaf_values.len(), total);
    }
}

proof fn lemma_lists_representable(m: ModelView)
    requires
        m.well_formed(),
        enc_model(m).len() <= usize::MAX,
    ensures
        carried(m.anchor_idx.len()),
        carried(m.deltas.len()),
        forall|s: int| 0 <= s < m.anchor_idx.len() ==> carried(#[trigger] m.anchor_idx[s].len()),
        forall|s: int| 0 <= s < m.deltas.len() ==> carried(#[trigger] m.deltas[s].len()),
        forall|s: int, a: int|
            0 <= s < m.anchor_idx.len() && 0 <= a < m.anchor_idx[s].len() ==> carried(
                #[trigger] m.anchor_idx[s][a] as nat,
            ),
{
    let total = enc_model(m).len();
    let d = enc_counted(anchors_enc(), m.anchor_idx);
    let e = enc_counted(deltas_enc(), m.deltas);
    lemma_matrix_len(m.initial_shape);
    assert(d.len() <= total && e.len() <= total);
    assert forall|s: int| 0 <= s < m.anchor_idx.len() implies (#[trigger] anchors_enc()(
        m.anchor_idx[s],
    )).len() >= 9 + 9 * m.anchor_idx[s].len() by {
        let a = m.anchor_idx[s];
        assert forall|k: int| 0 <= k < a.len() implies (#[trigger] nonneg_enc()(a[k])).len()
            >= 9 by {
            lemma_enc_nonneg_len(a[k]);
        }
        lemma_counted_bounds(nonneg_enc(), a);
    }
    assert forall|s: int| 0 <= s < m.deltas.len() implies (#[trigger] deltas_enc()(
        m.deltas[s],
    )).len() >= 9 + 9 * m.deltas[s].len() by {
        let dl = m.deltas[s];
        assert forall|k: int| 0 <= k < dl.len() implies (#[trigger] vector2_enc()(dl[k])).len()
            >= 9 by {
            lemma_real_len(dl[k].x);
            lemma_real_len(dl[k].y);
        }
        lemma_counted_bounds(vector2_enc(), dl);
    }
    lemma_counted_bounds(anchors_enc(), m.anchor_idx);
    lemma_counted_bounds(deltas_enc(), m.deltas);
    lemma_small_carried(m.anchor_idx.len(), total);
    lemma_small_carried(m.deltas.len(), total);
    assert forall|s: int| 0 <= s < m.anchor_idx.len() implies carried(
        #[trigger] m.anchor_idx[s].len(),
    ) by {
        assert(anchors_enc()(m.anchor_idx[s]).len() <= total);
        lemma_small_carried(m.anchor_idx[s].len(), total);
    }
    assert forall|s: int| 0 <= s < m.deltas.len() implies carried(
        #[trigger] m.deltas[s].len(),
    ) by {
        assert(deltas_enc()(m.deltas[s]).len() <= total);
        lemma_small_carried(m.deltas[s].len(), total);
    }
    lemma_small_carried(m.initial_shape.data.len(), total);
    assert forall|s: int, a: int|
        0 <= s < m.anchor_idx.len() && 0 <= a < m.anchor_idx[s].len() implies carried(
        #[trigger] m.anchor_idx[s][a] as nat,
    ) by {
        assert(m.stage_well_formed(s));
    }
}

/// A well-formed model whose cached form fits in memory has every count and
/// anchor index small enough for the format's integers.
proof fn lemma_representable(m: ModelView)
    requires
        m.well_formed(),
        enc_model(m).len() <= usize::MAX,
    ensures
        representable(m),
{
    assert(enc_counted(forest_enc(), m.forests).len() <= enc_model(m).len());
    lemma_forests_representable(m);
    lemma_lists_representable(m);
}

/// Reading back what was cached gives the same model: every count, index and
/// number, exactly. The law holds for every well-formed model whose cached
/// form fits in memory.
pub proof fn lemma_round_trip(m: ModelView)
    requires
        m.well_formed(),
        spec_serialize(m).len() <= usize::MAX,
    ensures
        spec_deserialize(spec_serialize(m)) == Ok::<ModelView, Error>(m),
{
    reveal(spec_serialize);
    let s = spec_serialize(m);
    lemma_representable(m);
    assert(s.subrange(0, s.len() as int) =~= s);
    lemma_holds_split(s, 0, cache_magic(), enc_model(m));
    assert(s.subrange(0, 4) =~= cache_magic());
    lemma_model_back(s, 4, m);
    lemma_deserialize_of(s, m, (4 + enc_model(m).len()) as usize);
}

proof fn lemma_deserialize_of(s: Seq<u8>, m: ModelView, end: usize)
    requires
        s.len() >= 4,
        s.subrange(0, 4) == cache_magic(),
        spec_model(s, 4) == Ok::<(ModelView, usize), Error>((m, end)),
        m.well_formed(),
    ensures
        spec_deserialize(s) == Ok::<ModelView, Error>(m),
{
    reveal(spec_deserialize);
}

proof fn lemma_enc_many_step<T>(enc: spec_fn(T) -> Seq<u8>, xs: Seq<T>, i: int)
    requires
        0 <= i < xs.len(),
    ensures
        enc_many(enc, xs.take(i + 1)) == enc_many(enc, xs.take(i)) + enc(xs[i]),
{
    assert(xs.take(i + 1).drop_last() =~= xs.take(i));
}

/// Appends the `k` lowest bytes of `n`, most significant first.
fn write_be(out: &mut Vec<u8>, n: u64, k: usize)
    requires
        k <= 8,
    ensures
        final(out)@ == old(out)@ + be_bytes(n as nat, k as nat),
    decreases k,
{
    if k > 0 {
        let ghost start = out@;
        write_be(out, n / 256, k - 1);
        out.push((n % 256) as u8);
        proof {
            assert(start + be_bytes((n / 256) as nat, (k - 1) as nat).push((n % 256) as u8)
                =~= start + be_bytes(n as nat, k as nat));
        }
    } else {
        proof {
            assert(out@ =~= out@ + be_bytes(n as nat, 0));
        }
    }
}

fn write_int(out: &mut Vec<u8>, v: i64)
    ensures
        final(out)@ == old(out)@ + enc_int(v),
{
    let ghost start = out@;
    if v < 0 {
        out.push(0x88);
        write_be(out, (0 - (v as i128)) as u64, 8);
    } else {
        out.push(0x08);
        write_be(out, v as u64, 8);
    }
    proof {
        let mag: nat = if v < 0 { (-v) as nat } else { v as nat };
        let c: u8 = if v < 0 { 0x88 } else { 0x08 };
        assert(start.push(c) + be_bytes(mag, 8) =~= start + (seq![c] + be_bytes(mag, 8)));
    }
}

fn write_nonneg(out: &mut Vec<u8>, v: u64)
    ensures
        final(out)@ == old(out)@ + enc_nonneg(v),
{
    let ghost start = out@;
    out.push(0x08);
    write_be(out, v, 8);
    proof {
        assert(start.push(0x08) + be_bytes(v as nat, 8) =~= start + enc_nonneg(v));
    }
}

fn write_real(out: &mut Vec<u8>, r: Real)
    ensures
        final(out)@ == old(out)@ + enc_real(r),
{
    let ghost start = out@;
    write_int(out, r.mantissa);
    write_int(out, r.exponent);
    proof {
        assert(start + enc_int(r.mantissa) + enc_int(r.exponent) =~= start + enc_real(r));
    }
}

fn write_vector2(out: &mut Vec<u8>, v: Vector2)
    ensures
        final(out)@ == old(out)@ + enc_vector2(v),
{
    let ghost start = out@;
    write_real(out, v.x);
    write_real(out, v.y);
    proof {
        assert(start + enc_real(v.x) + enc_real(v.y) =~= start + enc_vector2(v));
    }
}

fn write_split(out: &mut Vec<u8>, sp: SplitFeature)
    ensures
        final(out)@ == old(out)@ + enc_split(sp),
{
    let ghost start = out@;
    write_nonneg(out, sp.idx1);
    write_nonneg(out, sp.idx2);
    write_real(out, sp.thresh);
    proof {
        assert(start + enc_nonneg(sp.idx1) + enc_nonneg(sp.idx2) + enc_real(sp.thresh) =~= start
            + enc_split(sp));
    }
}

fn write_matrix(out: &mut Vec<u8>, m: &Matrix)
    ensures
        final(out)@ == old(out)@ + enc_matrix(m@),
{
    let ghost start = out@;
    write_nonneg(out, m.rows);
    write_nonneg(out, m.cols);
    let ghost base = out@;
    proof {
        assert(base =~= start + enc_dims(m.rows, m.cols));
        assert(m.data@.take(0) =~= Seq::<Real>::empty());
        assert(base + enc_many(real_enc(), m.data@.take(0)) =~= base);
    }
    let mut i: usize = 0;
    while i < m.data.len()
        invariant
            i <= m.data@.len(),
            base == start + enc_dims(m.rows, m.cols),
            out@ == base + enc_many(real_enc(), m.data@.take(i as int)),
        decreases m.data@.len() - i,
    {
        proof {
            lemma_enc_many_step(real_enc(), m.data@, i as int);
        }
        write_real(out, m.data[i]);
        proof {
            assert(out@ =~= base + enc_many(real_enc(), m.data@.take(i + 1)));
        }
        i += 1;
    }
    proof {
        assert(m.data@.take(m.data@.len() as int) =~= m.data@);
        assert(out@ =~= start + enc_matrix(m@));
    }
}


fn write_splits(out: &mut Vec<u8>, v: &Vec<SplitFeature>)
    ensures
        final(out)@ == old(out)@ + enc_counted(split_enc(), v@),
{
    let ghost start = out@;
    let ghost xs = v@;
    write_nonneg(out, v.len() as u64);
    let ghost base = out@;
    proof {
        assert(xs.take(0) =~= Seq::<SplitFeature>::empty());
        assert(base + enc_many(split_enc(), xs.take(0)) =~= base);
    }
    let mut i: usize = 0;
    while i < v.len()
        invariant
            xs == v@,
            xs.len() == v@.len(),
            i <= v@.len(),
            base == start + enc_nonneg(v@.len() as u64),
            out@ == base + enc_many(split_enc(), xs.take(i as int)),
        decreases v@.len() - i,
    {
        proof {
            lemma_enc_many_step(split_enc(), xs, i as int);
        }
        write_split(out, v[i]);
        proof {
            assert(xs[i as int] == v@[i as int]);
            assert(out@ =~= base + enc_many(split_enc(), xs.take(i + 1)));
        }
        i += 1;
    }
    proof {
        assert(xs.take(xs.len() as int) =~= xs);
        assert(out@ =~= start + enc_counted(split_enc(), xs));
    }
}

fn write_leaves(out: &mut Vec<u8>, v: &Vec<Matrix>)
    ensures
        final(out)@ == old(out)@ + enc_counted(matrix_enc(), matrices_view(v@)),
{
    let ghost start = out@;
    let ghost xs = matrices_view(v@);
    write_nonneg(out, v.len() as u64);
    let ghost base = out@;
    proof {
        assert(xs.take(0) =~= Seq::<MatrixView>::empty());
        assert(base + enc_many(matrix_enc(), xs.take(0)) =~= base);
    }
    let mut i: usize = 0;
    while i < v.len()
        invariant
            xs == matrices_view(v@),
            xs.len() == v@.len(),
            i <= v@.len(),
            base == start + enc_nonneg(v@.len() as u64),
            out@ == base + enc_many(matrix_enc(), xs.take(i as int)),
        decreases v@.len() - i,
    {
        proof {
            lemma_enc_many_step(matrix_enc(), xs, i as int);
        }
        write_matrix(out, &v[i]);
        proof {
            assert(xs[i as int] == v@[i as int]@);
            assert(out@ =~= base + enc_many(matrix_enc(), xs.take(i + 1)));
        }
        i += 1;
    }
    proof {
        assert(xs.take(xs.len() as int) =~= xs);
        assert(out@ =~= start + enc_counted(matrix_enc(), xs));
    }
}

fn write_tree(out: &mut Vec<u8>, t: &RegressionTree)
    ensures
        final(out)@ == old(out)@ + enc_tree(t@),
{
    let ghost start = out@;
    write_splits(out, &t.splits);
    write_leaves(out, &t.leaf_values);
    proof {
        assert(out@ =~= start + enc_tree(t@));
    }
}

fn write_forest(out: &mut Vec<u8>, v: &Vec<RegressionTree>)
    ensures
        final(out)@ == old(out)@ + enc_counted(tree_enc(), trees_view(v@)),
{
    let ghost start = out@;
    let ghost xs = trees_view(v@);
    write_nonneg(out, v.len() as u64);
    let ghost base = out@;
    proof {
        assert(xs.take(0) =~= Seq::<TreeView>::empty());
        assert(base + enc_many(tree_enc(), xs.take(0)) =~= base);
    }
    let mut i: usize = 0;
    while i < v.len()
        invariant
            xs == trees_view(v@),
            xs.len() == v@.len(),
            i <= v@.len(),
            base == start + enc_nonneg(v@.len() as u64),
            out@ == base + enc_many(tree_enc(), xs.take(i as int)),
        decreases v@.len() - i,
    {
        proof {
            lemma_enc_many_step(tree_enc(), xs, i as int);
        }
        write_tree(out, &v[i]);
        proof {
            assert(xs[i as int] == v@[i as int]@);
            assert(out@ =~= base + enc_many(tree_enc(), xs.take(i + 1)));
        }
        i += 1;
    }
    proof {
        assert(xs.take(xs.len() as int) =~= xs);
        assert(out@ =~= start + enc_counted(tree_enc(), xs));
    }
}

fn write_forests(out: &mut Vec<u8>, v: &Vec<Vec<RegressionTree>>)
    ensures
        final(out)@ == old(out)@ + enc_counted(forest_enc(), forests_view(v@)),
{
    let ghost start = out@;
    let ghost xs = forests_view(v@);
    write_nonneg(out, v.len() as u64);
    let ghost base = out@;
    proof {
        assert(xs.take(0) =~= Seq::<Seq<TreeView>>::empty());
        assert(base + enc_many(forest_enc(), xs.take(0)) =~= base);
    }
    let mut i: usize = 0;
    while i < v.len()
        invariant
            xs == forests_view(v@),
            xs.len() == v@.len(),
            i <= v@.len(),
            base == start + enc_nonneg(v@.len() as u64),
            out@ == base + enc_many(forest_enc(), xs.take(i as int)),
        decreases v@.len() - i,
    {
        proof {
            lemma_enc_many_step(forest_enc(), xs, i as int);
        }
        write_forest(out, &v[i]);
        proof {
            assert(xs[i as int] == trees_view(v@[i as int]@));
            assert(out@ =~= base + enc_many(forest_enc(), xs.take(i + 1)));
        }
        i += 1;
    }
    proof {
        assert(xs.take(xs.len() as int) =~= xs);
        assert(out@ =~= start + enc_counted(forest_enc(), xs));
    }
}

fn write_anchor_list(out: &mut Vec<u8>, v: &Vec<u64>)
    ensures
        final(out)@ == old(out)@ + enc_counted(nonneg_enc(), v@),
{
    let ghost start = out@;
    let ghost xs = v@;
    write_nonneg(out, v.len() as u64);
    let ghost base = out@;
    proof {
        assert(xs.take(0) =~= Seq::<u64>::empty());
        assert(base + enc_many(nonneg_enc(), xs.take(0)) =~= base);
    }
    let mut i: usize = 0;
    while i < v.len()
        invariant
            xs == v@,
            xs.len() == v@.len(),
            i <= v@.len(),
            base == start + enc_nonneg(v@.len() as u64),
            out@ == base + enc_many(nonneg_enc(), xs.take(i as int)),
        decreases v@.len() - i,
    {
        proof {
            lemma_enc_many_step(nonneg_enc(), xs, i as int);
        }
        write_nonneg(out, v[i]);
        proof {
            assert(xs[i as int] == v@[i as int]);
            assert(out@ =~= base + enc_many(nonneg_enc(), xs.take(i + 1)));
        }
        i += 1;
    }
    proof {
        assert(xs.take(xs.len() as int) =~= xs);
        assert(out@ =~= start + enc_counted(nonneg_enc(), xs));
    }
}

fn write_anchor_lists(out: &mut Vec<u8>, v: &Vec<Vec<u64>>)
    ensures
        final(out)@ == old(out)@ + enc_counted(anchors_enc(), nested_view(v@)),
{
    let ghost start = out@;
    let ghost xs = nested_view(v@);
    write_nonneg(out, v.len() as u64);
    let ghost base = out@;
    proof {
        assert(xs.take(0) =~= Seq::<Seq<u64>>::empty());
        assert(base + enc_many(anchors_enc(), xs.take(0)) =~= base);
    }
    let mut i: usize = 0;
    while i < v.len()
        invariant
            xs == nested_view(v@),
            xs.len() == v@.len(),
            i <= v@.len(),
            base == start + enc_nonneg(v@.len() as u64),
            out@ == base + enc_many(anchors_enc(), xs.take(i as int)),
        decreases v@.len() - i,
    {
        proof {
            lemma_enc_many_step(anchors_enc(), xs, i as int);
        }
        write_anchor_list(out, &v[i]);
        proof {
            assert(xs[i as int] == v@[i as int]@);
            assert(out@ =~= base + enc_many(anchors_enc(), xs.take(i + 1)));
        }
        i += 1;
    }
    proof {
        assert(xs.take(xs.len() as int) =~= xs);
        assert(out@ =~= start + enc_counted(anchors_enc(), xs));
    }
}

fn write_delta_list(out: &mut Vec<u8>, v: &Vec<Vector2>)
    ensures
        final(out)@ == old(out)@ + enc_counted(vector2_enc(), v@),
{
    let ghost start = out@;
    let ghost xs = v@;
    write_nonneg(out, v.len() as u64);
    let ghost base = out@;
    proof {
        assert(xs.take(0) =~= Seq::<Vector2>::empty());
        assert(base + enc_many(vector2_enc(), xs.take(0)) =~= base);
    }
    let mut i: usize = 0;
    while i < v.len()
        invariant
            xs == v@,
            xs.len() == v@.len(),
            i <= v@.len(),
            base == start + enc_nonneg(v@.len() as u64),
            out@ == base + enc_many(vector2_enc(), xs.take(i as int)),
        decreases v@.len() - i,
    {
        proof {
            lemma_enc_many_step(vector2_enc(), xs, i as int);
        }
        write_vector2(out, v[i]);
        proof {
            assert(xs[i as int] == v@[i as int]);
            assert(out@ =~= base + enc_many(vector2_enc(), xs.take(i + 1)));
        }
        i += 1;
    }
    proof {
        assert(xs.take(xs.len() as int) =~= xs);
        assert(out@ =~= start + enc_counted(vector2_enc(), xs));
    }
}

fn write_delta_lists(out: &mut Vec<u8>, v: &Vec<Vec<Vector2>>)
    ensures
        final(out)@ == old(out)@ + enc_counted(deltas_enc(), nested_view(v@)),
{
    let ghost start = out@;
    let ghost xs = nested_view(v@);
    write_nonneg(out, v.len() as u64);
    let ghost base = out@;
    proof {
        assert(xs.take(0) =~= Seq::<Seq<Vector2>>::empty());
        assert(base + enc_many(deltas_enc(), xs.take(0)) =~= base);
    }
    let mut i: usize = 0;
    while i < v.len()
        invariant
            xs == nested_view(v@),
            xs.len() == v@.len(),
            i <= v@.len(),
            base == start + enc_nonneg(v@.len() as u64),
            out@ == base + enc_many(deltas_enc(), xs.take(i as int)),
        decreases v@.len() - i,
    {
        proof {
            lemma_enc_many_step(deltas_enc(), xs, i as int);
        }
        write_delta_list(out, &v[i]);
        proof {
            assert(xs[i as int] == v@[i as int]@);
            assert(out@ =~= base + enc_many(deltas_enc(), xs.take(i + 1)));
        }
        i += 1;
    }
    proof {
        assert(xs.take(xs.len() as int) =~= xs);
        assert(out@ =~= start + enc_counted(deltas_enc(), xs));
    }
}

/// Writes the model to the cache format: the magic bytes, then the model in
/// canonical form.
pub fn serialize(model: &ShapePredictor) -> (r: Vec<u8>)
    ensures
        r@ == spec_serialize(model@),
{
    let mut out: Vec<u8> = Vec::new();
    out.push(0x53);
    out.push(0x50);
    out.push(0x43);
    out.push(0x48);
    proof {
        assert(out@ =~= cache_magic());
    }
    write_int(&mut out, 1);
    write_matrix(&mut out, &model.initial_shape);
    let ghost mid = out@;
    write_forests(&mut out, &model.forests);
    write_anchor_lists(&mut out, &model.anchor_idx);
    write_delta_lists(&mut out, &model.deltas);
    proof {
        reveal(spec_serialize);
        assert(out@ =~= mid + enc_stages(model@));
        assert(out@ =~= cache_magic() + enc_model(model@));
    }
    out
}

proof fn lemma_deserialize_cases(s: Seq<u8>)
    ensures
        s.len() < 4 ==> spec_deserialize(s) == Err::<ModelView, Error>(
            Error::TruncatedInput((4 - s.len()) as usize),
        ),
        s.len() >= 4 && s.subrange(0, 4) != cache_magic() ==> spec_deserialize(s) == Err::<
            ModelView,
            Error,
        >(Error::MalformedEncoding),
        s.len() >= 4 && s.subrange(0, 4) == cache_magic() ==> spec_deserialize(s)
            == spec_checked_model(s, 4),
{
    reveal(spec_deserialize);
}

proof fn lemma_not_magic(s: Seq<u8>)
    requires
        s.len() >= 4,
        s[0] != 0x53 || s[1] != 0x50 || s[2] != 0x43 || s[3] != 0x48,
    ensures
        s.subrange(0, 4) != cache_magic(),
{
    if s.subrange(0, 4) == cache_magic() {
        assert(s[0] == s.subrange(0, 4)[0]);
        assert(s[1] == s.subrange(0, 4)[1]);
        assert(s[2] == s.subrange(0, 4)[2]);
        assert(s[3] == s.subrange(0, 4)[3]);
    }
}

/// Reads a model back from the cache format.
pub fn deserialize(bytes: &[u8]) -> (r: Result<ShapePredictor, Error>)
    ensures
        match r {
            Ok(m) => spec_deserialize(bytes@) == Ok::<ModelView, Error>(m@),
            Err(e) => spec_deserialize(bytes@) == Err::<ModelView, Error>(e),
        },
{
    proof {
        lemma_deserialize_cases(bytes@);
    }
    if bytes.len() < 4 {
        return Err(Error::TruncatedInput(4 - bytes.len()));
    }
    if bytes[0] != 0x53 || bytes[1] != 0x50 || bytes[2] != 0x43 || bytes[3] != 0x48 {
        proof {
            lemma_not_magic(bytes@);
        }
        return Err(Error::MalformedEncoding);
    }
    proof {
        assert(bytes@.subrange(0, 4) =~= cache_magic());
    }
    checked_shape_predictor(bytes, 4)
}

} // verus!
