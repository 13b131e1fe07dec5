use vstd::prelude::*;
use vstd::arithmetic::div_mod::lemma_fundamental_div_mod_converse;
use crate::matrix::{Matrix, Error, dot_cell, dot_out, is_transpose};
use crate::scalar::Scalar;
use crate::util::{
    activation, activation_prime, activation_last, relu_map, relu_prime_map, softmax_map, ew_sub,
    ew_mul, ew_scale,
};

verus! {

/// One depth of the network: the learnable weight matrix and bias column,
/// the pre-activation and activation scratch columns of the last forward
/// pass, and the gradient scratch of the last backward pass. The input layer
/// keeps only `a`; its other six matrices stay zero-by-zero.
#[derive(Debug)]
pub struct Layer<T> {
    pub w: Matrix<T>,
    pub b: Matrix<T>,
    pub z: Matrix<T>,
    pub a: Matrix<T>,
    pub dw: Matrix<T>,
    pub db: Matrix<T>,
    pub dz: Matrix<T>,
}

/// Two matrices of one shape holding the same entries.
pub open spec fn mat_eqv<T>(m: Matrix<T>, o: Matrix<T>) -> bool {
    &&& m.rows == o.rows
    &&& m.cols == o.cols
    &&& m.data@ == o.data@
}

/// A well-formed column of the given height.
pub open spec fn is_col<T>(m: Matrix<T>, rows: int) -> bool {
    &&& m.wf()
    &&& m.rows == rows
    &&& m.cols == 1
}

/// The shape discipline of the input layer: only the activation column is
/// real, everything else is the empty matrix.
pub open spec fn layer_wf_input<T>(lay: Layer<T>, n0: int) -> bool {
    &&& is_col(lay.a, n0)
    &&& lay.w.wf() && lay.w.rows == 0 && lay.w.cols == 0
    &&& lay.b.wf() && lay.b.rows == 0 && lay.b.cols == 0
    &&& lay.z.wf() && lay.z.rows == 0 && lay.z.cols == 0
    &&& lay.dw.wf() && lay.dw.rows == 0 && lay.dw.cols == 0
    &&& lay.db.wf() && lay.db.rows == 0 && lay.db.cols == 0
    &&& lay.dz.wf() && lay.dz.rows == 0 && lay.dz.cols == 0
}

/// The shape discipline of a non-input layer of height `ni` fed by a layer of
/// height `nprev`.
pub open spec fn layer_wf<T>(lay: Layer<T>, ni: int, nprev: int) -> bool {
    &&& lay.w.wf() && lay.w.rows == ni && lay.w.cols == nprev
    &&& is_col(lay.b, ni)
    &&& is_col(lay.z, ni)
    &&& is_col(lay.a, ni)
    &&& lay.dw.wf() && lay.dw.rows == ni && lay.dw.cols == nprev
    &&& is_col(lay.db, ni)
    &&& is_col(lay.dz, ni)
}

/// A feedforward network: `l` non-input layers, the architecture `n`
/// (`l + 1` sizes, input first), the advisory per-sample loss of the last
/// error computation, and the layer records. Single-owner, single-thread:
/// nothing here is shared or locked.
#[derive(Debug)]
pub struct Network<T> {
    pub l: usize,
    pub error: T,
    pub n: Vec<usize>,
    pub layers: Vec<Layer<T>>,
}

impl<T> Network<T> {
    /// Well-formedness: a fixed topology of at least one non-input layer,
    /// with every matrix shaped by the architecture.
    pub open spec fn wf(self) -> bool {
        &&& 1 <= self.l
        &&& self.n@.len() == self.l + 1
        &&& self.layers@.len() == self.l + 1
        &&& layer_wf_input(self.layers@[0], self.n@[0] as int)
        &&& forall|i: int|
            1 <= i <= self.l ==> layer_wf(
                #[trigger] self.layers@[i],
                self.n@[i] as int,
                self.n@[i - 1] as int,
            )
    }
}

/// The affine map of one layer: the weight matrix applied to the previous
/// activation, plus the bias, entry by entry.
pub open spec fn affine_seq<T: Scalar>(w: Matrix<T>, aprev: Seq<T>, b: Seq<T>) -> Seq<T> {
    Seq::new(w.rows as nat, |r: int| dot_cell(w.row_view(r), aprev).add_spec(b[r]))
}

/// The activation column of layer `i` on input `x`, as determined by the
/// parameters of `net` alone: the input itself at depth zero, the rectified
/// affine map at hidden depths, softmax at the output depth.
pub open spec fn layer_a_seq<T: Scalar>(net: Network<T>, x: Seq<T>, i: int) -> Seq<T>
    decreases i,
{
    if i <= 0 {
        x
    } else {
        let z = affine_seq(net.layers@[i].w, layer_a_seq(net, x, i - 1), net.layers@[i].b.data@);
        if i < net.l {
            relu_map(z)
        } else {
            softmax_map(z)
        }
    }
}

/// The pre-activation column of layer `i` on input `x`, as determined by the
/// parameters of `net` alone.
pub open spec fn layer_z_seq<T: Scalar>(net: Network<T>, x: Seq<T>, i: int) -> Seq<T> {
    affine_seq(net.layers@[i].w, layer_a_seq(net, x, i - 1), net.layers@[i].b.data@)
}

/// What one forward pass leaves of layer `i`: parameters and gradients kept,
/// pre-activation and activation overwritten with the columns the parameters
/// determine.
pub open spec fn forward_layer_ok<T: Scalar>(
    pre: Network<T>,
    x: Seq<T>,
    post: Network<T>,
    i: int,
) -> bool {
    let lay = post.layers@[i];
    &&& mat_eqv(lay.w, pre.layers@[i].w)
    &&& mat_eqv(lay.b, pre.layers@[i].b)
    &&& mat_eqv(lay.dw, pre.layers@[i].dw)
    &&& mat_eqv(lay.db, pre.layers@[i].db)
    &&& mat_eqv(lay.dz, pre.layers@[i].dz)
    &&& is_col(lay.z, pre.n@[i] as int)
    &&& lay.z.data@ == layer_z_seq(pre, x, i)
    &&& is_col(lay.a, pre.n@[i] as int)
    &&& lay.a.data@ == layer_a_seq(pre, x, i)
}

/// What one forward pass on input column `x` does to the whole network:
/// topology, parameters, loss and gradients kept; the input layer's
/// activation replaced by `x`; every other layer's scratch recomputed.
pub open spec fn forward_rel<T: Scalar>(pre: Network<T>, x: Seq<T>, post: Network<T>) -> bool {
    &&& post.l == pre.l
    &&& post.n@ == pre.n@
    &&& post.error == pre.error
    &&& post.layers@.len() == pre.layers@.len()
    &&& mat_eqv(post.layers@[0].w, pre.layers@[0].w)
    &&& mat_eqv(post.layers@[0].b, pre.layers@[0].b)
    &&& mat_eqv(post.layers@[0].z, pre.layers@[0].z)
    &&& mat_eqv(post.layers@[0].dw, pre.layers@[0].dw)
    &&& mat_eqv(post.layers@[0].db, pre.layers@[0].db)
    &&& mat_eqv(post.layers@[0].dz, pre.layers@[0].dz)
    &&& is_col(post.layers@[0].a, pre.n@[0] as int)
    &&& post.layers@[0].a.data@ == x
    &&& forall|i: int| 1 <= i <= pre.l ==> #[trigger] forward_layer_ok(pre, x, post, i)
}

/// One cell of a product against a column: the product buffer at row `r` is
/// the dot of row `r` with the column's buffer.
proof fn lemma_dot_vec<T: Scalar>(w: Matrix<T>, v: Matrix<T>)
    requires
        w.wf(),
        v.wf(),
        v.cols == 1,
        w.cols == v.rows,
    ensures
        dot_out(w, v).len() == w.rows,
        forall|r: int|
            0 <= r < w.rows ==> #[trigger] dot_out(w, v)[r] == dot_cell(w.row_view(r), v.data@),
{
    assert(v.col_view(0) =~= v.data@);
    assert forall|r: int|
        0 <= r < w.rows implies #[trigger] dot_out(w, v)[r] == dot_cell(
        w.row_view(r),
        v.data@,
    ) by {
        lemma_fundamental_div_mod_converse(r, 1, r, 0);
    }
}

/// A fresh vector with the same numbers as the one borrowed.
fn copy_usize_vec(v: &Vec<usize>) -> (r: Vec<usize>)
    ensures
        r@ == v@,
{
    let mut data: Vec<usize> = Vec::new();
    let mut k: usize = 0;
    let n = v.len();
    while k < n
        invariant
            n == v@.len(),
            k <= n,
            data@.len() == k,
            forall|q: int| 0 <= q < k ==> data@[q] == v@[q],
        decreases n - k,
    {
        data.push(v[k]);
        k = k + 1;
    }
    proof {
        assert(data@ =~= v@);
    }
    data
}

/// The condition under which a fresh network can be assembled: at least two
/// layer sizes, and one weight matrix and bias column per non-input layer,
/// each shaped by the architecture, with every weight count fitting the
/// machine word.
pub open spec fn arch_fits<T>(arch: Seq<usize>, ws: Seq<Matrix<T>>, bs: Seq<Matrix<T>>) -> bool {
    &&& arch.len() >= 2
    &&& ws.len() == arch.len() - 1
    &&& bs.len() == arch.len() - 1
    &&& forall|i: int|
        1 <= i < arch.len() ==> (#[trigger] (arch[i] as int)) * (arch[i - 1] as int) <= usize::MAX
    &&& forall|i: int|
        0 <= i < ws.len() ==> (#[trigger] ws[i]).wf() && ws[i].rows == arch[i + 1] && ws[i].cols
            == arch[i]
    &&& forall|i: int|
        0 <= i < bs.len() ==> (#[trigger] bs[i]).wf() && bs[i].rows == arch[i + 1] && bs[i].cols
            == 1
}

/// What a freshly assembled network holds: the given architecture and
/// parameters, an advisory loss of one, an input activation of ones, scratch
/// and gradient buffers of ones shaped by the architecture.
pub open spec fn net_fresh<T: Scalar>(
    net: Network<T>,
    arch: Seq<usize>,
    ws: Seq<Matrix<T>>,
    bs: Seq<Matrix<T>>,
) -> bool {
    &&& net.l == arch.len() - 1
    &&& net.n@ == arch
    &&& net.error == T::one_spec()
    &&& net.layers@.len() == arch.len()
    &&& layer_wf_input(net.layers@[0], arch[0] as int)
    &&& forall|k: int|
        0 <= k < net.layers@[0].a.data@.len() ==> net.layers@[0].a.data@[k] == T::one_spec()
    &&& forall|i: int| 1 <= i <= net.l ==> #[trigger] net.layers@[i].w == ws[i - 1]
    &&& forall|i: int| 1 <= i <= net.l ==> #[trigger] net.layers@[i].b == bs[i - 1]
    &&& forall|i: int|
        1 <= i <= net.l ==> ones_mat(#[trigger] net.layers@[i].z, arch[i] as int, 1)
    &&& forall|i: int|
        1 <= i <= net.l ==> ones_mat(#[trigger] net.layers@[i].a, arch[i] as int, 1)
    &&& forall|i: int|
        1 <= i <= net.l ==> ones_mat(#[trigger] net.layers@[i].dw, arch[i] as int, arch[i - 1] as int)
    &&& forall|i: int|
        1 <= i <= net.l ==> ones_mat(#[trigger] net.layers@[i].db, arch[i] as int, 1)
    &&& forall|i: int|
        1 <= i <= net.l ==> ones_mat(#[trigger] net.layers@[i].dz, arch[i] as int, 1)
}

/// A well-formed matrix of the given shape holding only ones.
pub open spec fn ones_mat<T: Scalar>(m: Matrix<T>, rows: int, cols: int) -> bool {
    &&& m.wf()
    &&& m.rows == rows
    &&& m.cols == cols
    &&& forall|k: int| 0 <= k < m.data@.len() ==> m.data@[k] == T::one_spec()
}

impl<T: Scalar> Network<T> {
    /// A network over the given architecture, its weight matrices and bias
    /// columns taken in layer order from the two vectors. The caller draws
    /// the initial values, so initialization is reproducible.
    pub fn new(architecture: &Vec<usize>, weights: Vec<Matrix<T>>, biases: Vec<Matrix<T>>) -> (r:
        Network<T>)
        requires
            arch_fits(architecture@, weights@, biases@),
        ensures
            r.wf(),
            net_fresh(r, architecture@, weights@, biases@),
    {
        let l = architecture.len() - 1;
        let n = copy_usize_vec(architecture);
        let mut ws = weights;
        let mut bs = biases;
        let mut layers: Vec<Layer<T>> = Vec::new();
        let inp = Layer {
            w: Matrix::empty(),
            b: Matrix::empty(),
            z: Matrix::empty(),
            a: Matrix::ones(architecture[0], 1),
            dw: Matrix::empty(),
            db: Matrix::empty(),
            dz: Matrix::empty(),
        };
        layers.push(inp);
        let mut i: usize = 1;
        while i <= l
            invariant
                arch_fits(architecture@, weights@, biases@),
                n@ == architecture@,
                l == architecture@.len() - 1,
                l < usize::MAX,
                1 <= i <= l + 1,
                ws@ == weights@.subrange(i - 1, l as int),
                bs@ == biases@.subrange(i - 1, l as int),
                layers@.len() == i,
                layer_wf_input(layers@[0], architecture@[0] as int),
                forall|k: int|
                    0 <= k < layers@[0].a.data@.len() ==> layers@[0].a.data@[k] == T::one_spec(),
                forall|j: int| 1 <= j < i ==> #[trigger] layers@[j].w == weights@[j - 1],
                forall|j: int| 1 <= j < i ==> #[trigger] layers@[j].b == biases@[j - 1],
                forall|j: int|
                    1 <= j < i ==> ones_mat(#[trigger] layers@[j].z, architecture@[j] as int, 1),
                forall|j: int|
                    1 <= j < i ==> ones_mat(#[trigger] layers@[j].a, architecture@[j] as int, 1),
                forall|j: int|
                    1 <= j < i ==> ones_mat(
                        #[trigger] layers@[j].dw,
                        architecture@[j] as int,
                        architecture@[j - 1] as int,
                    ),
                forall|j: int|
                    1 <= j < i ==> ones_mat(#[trigger] layers@[j].db, architecture@[j] as int, 1),
                forall|j: int|
                    1 <= j < i ==> ones_mat(#[trigger] layers@[j].dz, architecture@[j] as int, 1),
            decreases l + 1 - i,
        {
            let ni = architecture[i];
            let nprev = architecture[i - 1];
            let w = ws.remove(0);
            let b = bs.remove(0);
            let lay = Layer {
                w,
                b,
                z: Matrix::ones(ni, 1),
                a: Matrix::ones(ni, 1),
                dw: Matrix::ones(ni, nprev),
                db: Matrix::ones(ni, 1),
                dz: Matrix::ones(ni, 1),
            };
            layers.push(lay);
            proof {
                assert(ws@ =~= weights@.subrange(i as int, l as int));
                assert(bs@ =~= biases@.subrange(i as int, l as int));
            }
            i = i + 1;
        }
        let error = T::one();
        let r = Network { l, error, n, layers };
        proof {
            assert forall|i2: int| 1 <= i2 <= r.l implies layer_wf(
                #[trigger] r.layers@[i2],
                r.n@[i2] as int,
                r.n@[i2 - 1] as int,
            ) by {
                assert(r.layers@[i2].w == weights@[i2 - 1]);
            }
        }
        r
    }

    /// One forward pass: the input column becomes the input layer's
    /// activation, and each later layer's pre-activation and activation are
    /// recomputed in depth order from the parameters, which it leaves
    /// untouched.
    pub fn forward(&mut self, x: Matrix<T>)
        requires
            old(self).wf(),
            x.wf(),
            x.rows == old(self).n@[0],
            x.cols == 1,
        ensures
            final(self).wf(),
            forward_rel(*old(self), x.data@, *final(self)),
    {
        let ghost pre = *old(self);
        proof {
            vstd::std_specs::vec::axiom_spec_len(&self.layers);
        }
        self.layers[0].a = x;
        let l = self.l;
        let mut i: usize = 1;
        while i <= l
            invariant
                pre.wf(),
                l < usize::MAX,
                x.wf(),
                x.cols == 1,
                x.rows == pre.n@[0],
                l == pre.l,
                1 <= i <= l + 1,
                self.l == pre.l,
                self.n == pre.n,
                self.error == pre.error,
                self.layers@.len() == pre.layers@.len(),
                self.layers@[0].w == pre.layers@[0].w,
                self.layers@[0].b == pre.layers@[0].b,
                self.layers@[0].z == pre.layers@[0].z,
                self.layers@[0].dw == pre.layers@[0].dw,
                self.layers@[0].db == pre.layers@[0].db,
                self.layers@[0].dz == pre.layers@[0].dz,
                self.layers@[0].a == x,
                forall|j: int|
                    1 <= j <= l ==> (#[trigger] self.layers@[j]).w == pre.layers@[j].w
                        && self.layers@[j].b == pre.layers@[j].b && self.layers@[j].dw
                        == pre.layers@[j].dw && self.layers@[j].db == pre.layers@[j].db
                        && self.layers@[j].dz == pre.layers@[j].dz,
                forall|j: int|
                    i <= j <= l ==> (#[trigger] self.layers@[j]).z == pre.layers@[j].z
                        && self.layers@[j].a == pre.layers@[j].a,
                forall|j: int| 1 <= j < i ==> #[trigger] forward_layer_ok(pre, x.data@, *self, j),
            decreases l + 1 - i,
        {
            let ghost snap = *self;
            proof {
                assert(layer_wf(pre.layers@[i as int], pre.n@[i as int] as int, pre.n@[i - 1] as int));
                if i > 1 {
                    assert(forward_layer_ok(pre, x.data@, *self, i - 1));
                }
            }
            let zraw = self.layers[i].w.dot(&self.layers[i - 1].a);
            let zdot = zraw.unwrap();
            let z2raw = zdot.add_mat(&self.layers[i].b);
            let z2 = z2raw.unwrap();
            proof {
                lemma_dot_vec(self.layers@[i as int].w, self.layers@[i - 1].a);
                assert(self.layers@[i - 1].a.data@ == layer_a_seq(pre, x.data@, i - 1));
                assert forall|r: int| 0 <= r < z2.data@.len() implies z2.data@[r] == layer_z_seq(
                    pre,
                    x.data@,
                    i as int,
                )[r] by {
                    assert(z2.data@[r] == zdot.data@[r].add_spec(self.layers@[i as int].b.data@[r]));
                    assert(zdot.data@[r] == dot_cell(
                        self.layers@[i as int].w.row_view(r),
                        self.layers@[i - 1].a.data@,
                    ));
                    assert(self.layers@[i as int].w.row_view(r) == pre.layers@[i as int].w.row_view(
                        r,
                    ));
                }
                assert(z2.data@ =~= layer_z_seq(pre, x.data@, i as int));
            }
            self.layers[i].z = z2;
            if i < l {
                let am = activation(&self.layers[i].z);
                self.layers[i].a = am;
            } else {
                let am = activation_last(&self.layers[i].z);
                self.layers[i].a = am;
            }
            proof {
                assert(forward_layer_ok(pre, x.data@, *self, i as int));
                assert forall|j: int| 1 <= j < i implies #[trigger] forward_layer_ok(
                    pre,
                    x.data@,
                    *self,
                    j,
                ) by {
                    assert(forward_layer_ok(pre, x.data@, snap, j));
                    assert(self.layers@[j] == snap.layers@[j]);
                }
            }
            i = i + 1;
        }
        proof {
            assert(forward_rel(pre, x.data@, *self));
            assert forall|i2: int| 1 <= i2 <= self.l implies layer_wf(
                #[trigger] self.layers@[i2],
                self.n@[i2] as int,
                self.n@[i2 - 1] as int,
            ) by {
                assert(forward_layer_ok(pre, x.data@, *self, i2));
                assert(layer_wf(pre.layers@[i2], pre.n@[i2] as int, pre.n@[i2 - 1] as int));
            }
        }
    }
}


/// Whether some entry of a target column equals one.
pub open spec fn has_hot<T: Scalar>(s: Seq<T>) -> bool {
    exists|k: int| 0 <= k < s.len() && #[trigger] s[k].is_one_spec()
}

/// The position of the first entry equal to one; meaningful only when one
/// exists.
pub open spec fn first_hot<T: Scalar>(s: Seq<T>) -> int
    decreases s.len(),
{
    if s.len() == 0 {
        0
    } else if s[0].is_one_spec() {
        0
    } else {
        1 + first_hot(s.subrange(1, s.len() as int))
    }
}

/// A forward scan that stops at a hot entry with none before it has found
/// `first_hot`.
proof fn lemma_first_hot<T: Scalar>(s: Seq<T>, k: int)
    requires
        0 <= k < s.len(),
        s[k].is_one_spec(),
        forall|q: int| #![trigger s[q].is_one_spec()] 0 <= q < k ==> !s[q].is_one_spec(),
    ensures
        first_hot(s) == k,
        has_hot(s),
    decreases k,
{
    if k == 0 {
    } else {
        let t = s.subrange(1, s.len() as int);
        assert(t[k - 1] == s[k]);
        assert forall|q: int| #![trigger t[q].is_one_spec()] 0 <= q < k - 1 implies !t[q].is_one_spec() by {
            assert(t[q] == s[q + 1]);
            assert(!s[q + 1].is_one_spec());
        }
        lemma_first_hot(t, k - 1);
    }
}

/// What one loss computation does to the network: everything kept but the
/// advisory loss, which becomes the negated logarithm of the output
/// activation at the first hot entry of the target, when one exists.
pub open spec fn error_rel<T: Scalar>(pre: Network<T>, y: Seq<T>, post: Network<T>) -> bool {
    &&& post.l == pre.l
    &&& post.n@ == pre.n@
    &&& post.layers@ == pre.layers@
    &&& post.error == (if has_hot(y) {
        pre.layers@[pre.l as int].a.data@[first_hot(y)].ln_spec().neg_spec()
    } else {
        pre.error
    })
}

/// The backpropagated gradient column of layer `i`, as determined by the
/// state a forward pass left: the output activation minus the target at the
/// output layer, and further down the transposed next weights applied to the
/// next gradient, gated by the rectifier's derivative at the layer's own
/// pre-activation.
pub open spec fn dz_seq<T: Scalar>(net: Network<T>, y: Seq<T>, i: int) -> Seq<T>
    decreases net.l - i,
{
    if i >= net.l {
        ew_sub(net.layers@[net.l as int].a.data@, y)
    } else {
        ew_mul(
            tdot_seq(net.layers@[i + 1].w, dz_seq(net, y, i + 1)),
            relu_prime_map(net.layers@[i].z.data@),
        )
    }
}

/// The transpose of `w` applied to a column: entry `j` is the dot of column
/// `j` of `w` with the column's buffer.
pub open spec fn tdot_seq<T: Scalar>(w: Matrix<T>, v: Seq<T>) -> Seq<T> {
    Seq::new(w.cols as nat, |j: int| dot_cell(w.col_view(j), v))
}

/// The row-major buffer of the outer product of two columns, each cell
/// accumulated from zero as the dot product computes it.
pub open spec fn outer_map<T: Scalar>(u: Seq<T>, v: Seq<T>) -> Seq<T> {
    Seq::new(
        (u.len() * v.len()) as nat,
        |k: int|
            T::zero_spec().add_spec(
                u[k / (v.len() as int)].mul_spec(v[k % (v.len() as int)]),
            ),
    )
}

/// What one backward pass leaves of layer `i`: parameters and forward
/// scratch kept; the gradient columns overwritten with what the chain rule
/// determines from the forward scratch and the target.
pub open spec fn delta_layer_ok<T: Scalar>(
    pre: Network<T>,
    y: Seq<T>,
    post: Network<T>,
    i: int,
) -> bool {
    let lay = post.layers@[i];
    &&& lay.w == pre.layers@[i].w
    &&& lay.b == pre.layers@[i].b
    &&& lay.z == pre.layers@[i].z
    &&& lay.a == pre.layers@[i].a
    &&& is_col(lay.dz, pre.n@[i] as int)
    &&& lay.dz.data@ == dz_seq(pre, y, i)
    &&& lay.dw.wf()
    &&& lay.dw.rows == pre.n@[i]
    &&& lay.dw.cols == pre.n@[i - 1]
    &&& lay.dw.data@ == outer_map(dz_seq(pre, y, i), pre.layers@[i - 1].a.data@)
    &&& is_col(lay.db, pre.n@[i] as int)
    &&& lay.db.data@ == dz_seq(pre, y, i)
}

/// What one backward pass does to the whole network.
pub open spec fn delta_rel<T: Scalar>(pre: Network<T>, y: Seq<T>, post: Network<T>) -> bool {
    &&& post.l == pre.l
    &&& post.n@ == pre.n@
    &&& post.error == pre.error
    &&& post.layers@.len() == pre.layers@.len()
    &&& post.layers@[0] == pre.layers@[0]
    &&& forall|i: int| 1 <= i <= pre.l ==> #[trigger] delta_layer_ok(pre, y, post, i)
}

/// What one gradient-descent step leaves of layer `i`: scratch and gradients
/// kept; weights and biases stepped against their gradients, scaled by the
/// learning rate.
pub open spec fn gd_layer_ok<T: Scalar>(
    pre: Network<T>,
    alpha: T,
    post: Network<T>,
    i: int,
) -> bool {
    let lay = post.layers@[i];
    &&& lay.z == pre.layers@[i].z
    &&& lay.a == pre.layers@[i].a
    &&& lay.dw == pre.layers@[i].dw
    &&& lay.db == pre.layers@[i].db
    &&& lay.dz == pre.layers@[i].dz
    &&& lay.w.wf()
    &&& lay.w.rows == pre.n@[i]
    &&& lay.w.cols == pre.n@[i - 1]
    &&& lay.w.data@ == ew_sub(
        pre.layers@[i].w.data@,
        ew_scale(pre.layers@[i].dw.data@, alpha),
    )
    &&& is_col(lay.b, pre.n@[i] as int)
    &&& lay.b.data@ == ew_sub(
        pre.layers@[i].b.data@,
        ew_scale(pre.layers@[i].db.data@, alpha),
    )
}

/// What one gradient-descent step does to the whole network.
pub open spec fn gd_rel<T: Scalar>(pre: Network<T>, alpha: T, post: Network<T>) -> bool {
    &&& post.l == pre.l
    &&& post.n@ == pre.n@
    &&& post.error == pre.error
    &&& post.layers@.len() == pre.layers@.len()
    &&& post.layers@[0] == pre.layers@[0]
    &&& forall|i: int| 1 <= i <= pre.l ==> #[trigger] gd_layer_ok(pre, alpha, post, i)
}

/// The product of a column with a transposed column is their outer product,
/// cell by cell.
proof fn lemma_outer_out<T: Scalar>(u: Matrix<T>, vt: Matrix<T>, v: Matrix<T>)
    requires
        u.wf(),
        u.cols == 1,
        v.wf(),
        v.cols == 1,
        vt.wf(),
        is_transpose(vt, v),
    ensures
        dot_out(u, vt) == outer_map(u.data@, v.data@),
{
    let d = v.rows as int;
    assert(u.data@.len() == u.rows);
    assert(v.data@.len() == v.rows);
    assert(dot_out(u, vt).len() == (u.rows as int) * d);
    assert(outer_map(u.data@, v.data@).len() == (u.rows as int) * d);
    assert forall|k: int| 0 <= k < (u.rows as int) * d implies dot_out(u, vt)[k] == outer_map(
        u.data@,
        v.data@,
    )[k] by {
        assert(d > 0) by (nonlinear_arith)
            requires
                0 <= k < (u.rows as int) * d,
                d >= 0,
        ;
        vstd::arithmetic::div_mod::lemma_fundamental_div_mod(k, d);
        vstd::arithmetic::div_mod::lemma_mod_pos_bound(k, d);
        let i = k / d;
        let j = k % d;
        assert(i < u.rows) by (nonlinear_arith)
            requires
                k == d * i + j,
                0 <= j < d,
                k < (u.rows as int) * d,
                0 <= i,
        ;
        let ra = u.row_view(i);
        let cb = vt.col_view(j);
        assert(ra.len() == 1);
        assert(cb.len() == 1);
        assert(ra.last() == u.data@[i]);
        assert(cb.last() == vt.idx(0, j));
        assert(vt.idx(0, j) == v.idx(j, 0));
        assert(v.idx(j, 0) == v.data@[j]);
        assert(dot_cell(ra, cb) == dot_cell(ra.drop_last(), cb.drop_last()).add_spec(
            ra.last().mul_spec(cb.last()),
        ));
        assert(ra.drop_last().len() == 0);
    }
    assert(dot_out(u, vt) =~= outer_map(u.data@, v.data@));
}

/// A transpose's row is the original's column.
proof fn lemma_transpose_rows<T>(wt: Matrix<T>, w: Matrix<T>)
    requires
        w.wf(),
        wt.wf(),
        is_transpose(wt, w),
    ensures
        forall|j: int| 0 <= j < w.cols ==> #[trigger] wt.row_view(j) == w.col_view(j),
{
    assert forall|j: int| 0 <= j < w.cols implies #[trigger] wt.row_view(j) == w.col_view(j) by {
        if w.rows > 0 {
            crate::matrix::lemma_index_bound(j, 0, w.cols as int, w.rows as int);
            assert((j as int) * (w.rows as int) + (w.rows as int) <= (w.cols as int) * (
            w.rows as int)) by (nonlinear_arith)
                requires
                    0 <= j < w.cols,
                    0 <= w.rows,
            ;
        } else {
            assert((j as int) * (wt.cols as int) == 0) by (nonlinear_arith)
                requires
                    (wt.cols as int) == 0,
            ;
        }
        assert((w.cols as int) * (w.rows as int) == (w.rows as int) * (w.cols as int))
            by (nonlinear_arith);
        assert forall|q: int| 0 <= q < w.rows implies wt.row_view(j)[q] == w.col_view(j)[q] by {
            assert(wt.row_view(j)[q] == wt.data@[j * (wt.cols as int) + q]);
            assert(wt.idx(j, q) == w.idx(q, j));
        }
        assert(wt.row_view(j) =~= w.col_view(j));
    }
}

impl<T: Scalar> Network<T> {
    /// The per-sample loss against a one-hot target column: locates the first
    /// entry of `y` equal to one and stores the negated logarithm of the
    /// output activation at that position, or reports `ClassNotFound` and
    /// changes nothing when no entry equals one.
    pub fn error(&mut self, y: &Matrix<T>) -> (r: Result<(), Error>)
        requires
            old(self).wf(),
            y.wf(),
            y.rows == old(self).n@[old(self).l as int],
            y.cols == 1,
        ensures
            final(self).wf(),
            error_rel(*old(self), y.data@, *final(self)),
            r == Ok::<(), Error>(()) <==> has_hot(y.data@),
            !has_hot(y.data@) ==> r == Err::<(), Error>(Error::ClassNotFound),
    {
        let n = y.data.len();
        let mut k: usize = 0;
        while k < n
            invariant
                *self == *old(self),
                old(self).wf(),
                y.wf(),
                y.rows == old(self).n@[old(self).l as int],
                y.cols == 1,
                n == y.data@.len(),
                k <= n,
                forall|q: int| #![trigger y.data@[q].is_one_spec()] 0 <= q < k ==> !y.data@[q].is_one_spec(),
            decreases n - k,
        {
            if y.data[k].is_one() {
                proof {
                    lemma_first_hot(y.data@, k as int);
                    assert(layer_wf(
                        self.layers@[self.l as int],
                        self.n@[self.l as int] as int,
                        self.n@[self.l as int - 1] as int,
                    ));
                }
                let p = self.layers[self.l].a.data[k];
                self.error = p.ln().neg();
                return Ok(());
            }
            k = k + 1;
        }
        proof {
            assert(!has_hot(y.data@));
        }
        Err(Error::ClassNotFound)
    }

    /// One backward pass against a target column: overwrites every non-input
    /// layer's gradient scratch with what the chain rule determines from the
    /// forward scratch. The rectifier's derivative is taken at each layer's
    /// stored pre-activation. Parameters and forward scratch are untouched.
    pub fn delta(&mut self, y: &Matrix<T>)
        requires
            old(self).wf(),
            y.wf(),
            y.rows == old(self).n@[old(self).l as int],
            y.cols == 1,
        ensures
            final(self).wf(),
            delta_rel(*old(self), y.data@, *final(self)),
    {
        let ghost pre = *old(self);
        proof {
            vstd::std_specs::vec::axiom_spec_len(&self.layers);
            assert(layer_wf(
                pre.layers@[pre.l as int],
                pre.n@[pre.l as int] as int,
                pre.n@[pre.l as int - 1] as int,
            ));
            if pre.l > 1 {
                assert(layer_wf(
                    pre.layers@[pre.l - 1],
                    pre.n@[pre.l - 1] as int,
                    pre.n@[pre.l - 2] as int,
                ));
            }
        }
        let l = self.l;
        let dzraw = self.layers[l].a.sub_mat(y);
        let dzm = dzraw.unwrap();
        proof {
            assert(dzm.data@ =~= dz_seq(pre, y.data@, l as int));
        }
        self.layers[l].dz = dzm;
        let at = self.layers[l - 1].a.t();
        let dwraw = self.layers[l].dz.dot(&at);
        let dwm = dwraw.unwrap();
        proof {
            lemma_outer_out(self.layers@[l as int].dz, at, pre.layers@[l - 1].a);
        }
        self.layers[l].dw = dwm;
        let dbm = self.layers[l].dz.duplicate();
        self.layers[l].db = dbm;
        proof {
            assert(delta_layer_ok(pre, y.data@, *self, l as int));
        }
        let mut i: usize = l - 1;
        while i >= 1
            invariant
                pre.wf(),
                l == pre.l,
                l < usize::MAX,
                y.wf(),
                y.cols == 1,
                y.rows == pre.n@[pre.l as int],
                i <= l - 1,
                self.l == pre.l,
                self.n == pre.n,
                self.error == pre.error,
                self.layers@.len() == pre.layers@.len(),
                self.layers@[0] == pre.layers@[0],
                forall|j: int| 1 <= j <= i ==> self.layers@[j] == pre.layers@[j],
                forall|j: int|
                    i < j <= l ==> #[trigger] delta_layer_ok(pre, y.data@, *self, j),
            decreases i,
        {
            let ghost snap = *self;
            proof {
                assert(layer_wf(pre.layers@[i as int], pre.n@[i as int] as int, pre.n@[i - 1] as int));
                assert(layer_wf(
                    pre.layers@[i + 1],
                    pre.n@[i + 1] as int,
                    pre.n@[i as int] as int,
                ));
                assert(delta_layer_ok(pre, y.data@, *self, i + 1));
                if i > 1 {
                    assert(layer_wf(
                        pre.layers@[i - 1],
                        pre.n@[i - 1] as int,
                        pre.n@[i - 2] as int,
                    ));
                }
            }
            let wt = self.layers[i + 1].w.t();
            let wdraw = wt.dot(&self.layers[i + 1].dz);
            let wd = wdraw.unwrap();
            let ap = activation_prime(&self.layers[i].z);
            let prodraw = wd.mul_mat(&ap);
            let prod = prodraw.unwrap();
            proof {
                lemma_dot_vec(wt, self.layers@[i + 1].dz);
                lemma_transpose_rows(wt, pre.layers@[i + 1].w);
                assert forall|r: int| 0 <= r < prod.data@.len() implies prod.data@[r] == dz_seq(
                    pre,
                    y.data@,
                    i as int,
                )[r] by {
                    assert(wd.data@[r] == dot_cell(wt.row_view(r), self.layers@[i + 1].dz.data@));
                    assert(wt.row_view(r) == pre.layers@[i + 1].w.col_view(r));
                    assert(prod.data@[r] == wd.data@[r].mul_spec(ap.data@[r]));
                }
                assert(prod.data@ =~= dz_seq(pre, y.data@, i as int));
            }
            self.layers[i].dz = prod;
            let at2 = self.layers[i - 1].a.t();
            let dw2raw = self.layers[i].dz.dot(&at2);
            let dw2 = dw2raw.unwrap();
            proof {
                lemma_outer_out(self.layers@[i as int].dz, at2, pre.layers@[i - 1].a);
            }
            self.layers[i].dw = dw2;
            let db2 = self.layers[i].dz.duplicate();
            self.layers[i].db = db2;
            proof {
                assert(delta_layer_ok(pre, y.data@, *self, i as int));
                assert forall|j: int| i < j <= l implies #[trigger] delta_layer_ok(
                    pre,
                    y.data@,
                    *self,
                    j,
                ) by {
                    if j > i + 1 || j == i + 1 {
                        if j != i {
                            assert(delta_layer_ok(pre, y.data@, snap, j));
                            assert(self.layers@[j] == snap.layers@[j]);
                        }
                    }
                }
            }
            i = i - 1;
        }
        proof {
            assert(delta_rel(pre, y.data@, *self));
            assert forall|i2: int| 1 <= i2 <= self.l implies layer_wf(
                #[trigger] self.layers@[i2],
                self.n@[i2] as int,
                self.n@[i2 - 1] as int,
            ) by {
                assert(delta_layer_ok(pre, y.data@, *self, i2));
                assert(layer_wf(pre.layers@[i2], pre.n@[i2] as int, pre.n@[i2 - 1] as int));
            }
        }
    }

    /// One stochastic gradient-descent step: every non-input layer's weights
    /// and biases move against their stored gradients, scaled by the
    /// learning rate `alpha`. Scratch and gradients are untouched.
    pub fn gradient_descent(&mut self, alpha: T)
        requires
            old(self).wf(),
        ensures
            final(self).wf(),
            gd_rel(*old(self), alpha, *final(self)),
    {
        let ghost pre = *old(self);
        proof {
            vstd::std_specs::vec::axiom_spec_len(&self.layers);
        }
        let l = self.l;
        let mut i: usize = 1;
        while i <= l
            invariant
                pre.wf(),
                l == pre.l,
                l < usize::MAX,
                1 <= i <= l + 1,
                self.l == pre.l,
                self.n == pre.n,
                self.error == pre.error,
                self.layers@.len() == pre.layers@.len(),
                self.layers@[0] == pre.layers@[0],
                forall|j: int| i <= j <= l ==> self.layers@[j] == pre.layers@[j],
                forall|j: int| 1 <= j < i ==> #[trigger] gd_layer_ok(pre, alpha, *self, j),
            decreases l + 1 - i,
        {
            let ghost snap = *self;
            proof {
                assert(layer_wf(pre.layers@[i as int], pre.n@[i as int] as int, pre.n@[i - 1] as int));
            }
            let ws = self.layers[i].dw.mul_scalar(alpha);
            let wraw = self.layers[i].w.sub_mat(&ws);
            let wnew = wraw.unwrap();
            proof {
                assert(wnew.data@ =~= ew_sub(
                    pre.layers@[i as int].w.data@,
                    ew_scale(pre.layers@[i as int].dw.data@, alpha),
                ));
            }
            self.layers[i].w = wnew;
            let bs = self.layers[i].db.mul_scalar(alpha);
            let braw = self.layers[i].b.sub_mat(&bs);
            let bnew = braw.unwrap();
            proof {
                assert(bnew.data@ =~= ew_sub(
                    pre.layers@[i as int].b.data@,
                    ew_scale(pre.layers@[i as int].db.data@, alpha),
                ));
            }
            self.layers[i].b = bnew;
            proof {
                assert(gd_layer_ok(pre, alpha, *self, i as int));
                assert forall|j: int| 1 <= j < i implies #[trigger] gd_layer_ok(
                    pre,
                    alpha,
                    *self,
                    j,
                ) by {
                    assert(gd_layer_ok(pre, alpha, snap, j));
                    assert(self.layers@[j] == snap.layers@[j]);
                }
            }
            i = i + 1;
        }
        proof {
            assert forall|i2: int| 1 <= i2 <= self.l implies layer_wf(
                #[trigger] self.layers@[i2],
                self.n@[i2] as int,
                self.n@[i2 - 1] as int,
            ) by {
                assert(gd_layer_ok(pre, alpha, *self, i2));
                assert(layer_wf(pre.layers@[i2], pre.n@[i2] as int, pre.n@[i2 - 1] as int));
            }
        }
    }

    /// Inference: one forward pass, then a fresh copy of the output layer's
    /// activation column. The parameters are untouched and the result is
    /// pinned by them and the input alone, so predicting twice with no
    /// intervening training yields identical columns.
    pub fn predict(&mut self, x: Matrix<T>) -> (r: Matrix<T>)
        requires
            old(self).wf(),
            x.wf(),
            x.rows == old(self).n@[0],
            x.cols == 1,
        ensures
            final(self).wf(),
            forward_rel(*old(self), x.data@, *final(self)),
            is_col(r, old(self).n@[old(self).l as int] as int),
            r.data@ == layer_a_seq(*old(self), x.data@, old(self).l as int),
    {
        let ghost pre = *old(self);
        self.forward(x);
        proof {
            assert(forward_layer_ok(pre, x.data@, *self, pre.l as int));
        }
        let out = self.layers[self.l].a.duplicate();
        proof {
            assert(out.wf());
        }
        out
    }
}

/// The activation a network computes depends on its parameters alone: two
/// networks of one depth whose weights and biases agree, layer for layer,
/// compute the same activation columns on any input.
pub proof fn lemma_activations_from_params<T: Scalar>(
    net1: Network<T>,
    net2: Network<T>,
    x: Seq<T>,
    i: int,
)
    requires
        net1.l == net2.l,
        i <= net1.l,
        forall|j: int|
            1 <= j <= net1.l ==> mat_eqv(
                (#[trigger] net1.layers@[j]).w,
                net2.layers@[j].w,
            ) && mat_eqv(net1.layers@[j].b, net2.layers@[j].b),
    ensures
        layer_a_seq(net1, x, i) == layer_a_seq(net2, x, i),
    decreases i,
{
    if i <= 0 {
    } else {
        lemma_activations_from_params(net1, net2, x, i - 1);
        lemma_affine_same(
            net1.layers@[i].w,
            net2.layers@[i].w,
            layer_a_seq(net1, x, i - 1),
            net1.layers@[i].b.data@,
            net2.layers@[i].b.data@,
        );
    }
}

/// Prediction is repeatable: a forward pass, which is all that `predict`
/// does to the network, leaves a network that computes exactly the
/// activation columns the old one computed, on every input. Two predictions
/// with no training in between therefore return identical columns.
pub proof fn lemma_predict_repeatable<T: Scalar>(
    pre: Network<T>,
    mid: Network<T>,
    x0: Seq<T>,
    x: Seq<T>,
)
    requires
        pre.wf(),
        forward_rel(pre, x0, mid),
    ensures
        layer_a_seq(mid, x, pre.l as int) == layer_a_seq(pre, x, pre.l as int),
{
    assert forall|j: int|
        1 <= j <= mid.l implies mat_eqv((#[trigger] mid.layers@[j]).w, pre.layers@[j].w)
        && mat_eqv(mid.layers@[j].b, pre.layers@[j].b) by {
        assert(forward_layer_ok(pre, x0, mid, j));
    }
    lemma_activations_from_params(mid, pre, x, pre.l as int);
}

/// Two identically shaped weight matrices with the same entries, and equal
/// biases, give equal affine maps.
proof fn lemma_affine_same<T: Scalar>(w1: Matrix<T>, w2: Matrix<T>, s: Seq<T>, b1: Seq<T>, b2: Seq<T>)
    requires
        mat_eqv(w1, w2),
        b1 == b2,
    ensures
        affine_seq(w1, s, b1) == affine_seq(w2, s, b2),
{
    assert forall|r: int| 0 <= r < w1.rows implies affine_seq(w1, s, b1)[r] == affine_seq(
        w2,
        s,
        b2,
    )[r] by {
        assert(w1.row_view(r) == w2.row_view(r));
    }
    assert(affine_seq(w1, s, b1) =~= affine_seq(w2, s, b2));
}


/// One training sample processed: a forward pass on row `r` of the inputs,
/// the loss, a backward pass, and one gradient-descent step, in that order.
pub open spec fn sample_step<T: Scalar>(
    pre: Network<T>,
    xs: Matrix<T>,
    ys: Matrix<T>,
    alpha: T,
    r: int,
    post: Network<T>,
) -> bool {
    exists|m1: Network<T>, m2: Network<T>, m3: Network<T>|
        forward_rel(pre, xs.row_view(r), m1) && #[trigger] error_rel(m1, ys.row_view(r), m2)
            && #[trigger] delta_rel(m2, ys.row_view(r), m3) && gd_rel(m3, alpha, post)
}

/// A run of states through `t` training steps: state `k + 1` arises from
/// state `k` by processing sample row `k % rows`, rows in fixed ascending
/// order, starting over at each epoch.
pub open spec fn fit_trace<T: Scalar>(
    s0: Network<T>,
    xs: Matrix<T>,
    ys: Matrix<T>,
    alpha: T,
    t: nat,
    s1: Network<T>,
    tr: Seq<Network<T>>,
) -> bool {
    &&& tr.len() == t + 1
    &&& tr[0] == s0
    &&& tr[t as int] == s1
    &&& forall|k: int|
        #![trigger tr[k]]
        0 <= k < t ==> sample_step(tr[k], xs, ys, alpha, k % (xs.rows as int), tr[k + 1])
}

/// `t` training samples processed in the fixed ascending row order, row
/// `t % rows` next, starting over at each epoch: some run of intermediate
/// states joins the two endpoint states.
pub open spec fn fit_steps<T: Scalar>(
    s0: Network<T>,
    xs: Matrix<T>,
    ys: Matrix<T>,
    alpha: T,
    t: nat,
    s1: Network<T>,
) -> bool {
    exists|tr: Seq<Network<T>>| #[trigger] fit_trace(s0, xs, ys, alpha, t, s1, tr)
}

impl<T: Scalar> Network<T> {
    /// Training: for each of `epochs` passes over the samples, and for each
    /// sample row in fixed ascending order, run a forward pass, the loss, a
    /// backward pass and one gradient-descent step. Rows of `xs` are input
    /// samples, rows of `ys` the matching one-hot targets. Fails with
    /// `ClassNotFound`, leaving training where it stopped, as soon as a
    /// target row without an entry equal to one is met.
    pub fn fit(&mut self, xs: &Matrix<T>, ys: &Matrix<T>, epochs: usize, alpha: T) -> (r: Result<
        (),
        Error,
    >)
        requires
            old(self).wf(),
            xs.wf(),
            ys.wf(),
            xs.rows == ys.rows,
            xs.cols == old(self).n@[0],
            ys.cols == old(self).n@[old(self).l as int],
        ensures
            final(self).wf(),
            final(self).l == old(self).l,
            final(self).n@ == old(self).n@,
            r == Ok::<(), Error>(()) || r == Err::<(), Error>(Error::ClassNotFound),
            r == Ok::<(), Error>(()) ==> fit_steps(
                *old(self),
                *xs,
                *ys,
                alpha,
                (epochs * xs.rows) as nat,
                *final(self),
            ),
            r == Ok::<(), Error>(()) <==> !(epochs >= 1 && exists|q: int|
                0 <= q < xs.rows && !has_hot(#[trigger] ys.row_view(q))),
    {
        let ghost net0 = *old(self);
        let ghost mut tr: Seq<Network<T>> = Seq::empty().push(*old(self));
        let rows = xs.rows;
        let mut epoch: usize = 0;
        while epoch < epochs
            invariant
                net0 == *old(self),
                net0.wf(),
                xs.wf(),
                ys.wf(),
                rows == xs.rows,
                xs.rows == ys.rows,
                xs.cols == net0.n@[0],
                ys.cols == net0.n@[net0.l as int],
                epoch <= epochs,
                self.wf(),
                self.l == net0.l,
                self.n@ == net0.n@,
                fit_trace(net0, *xs, *ys, alpha, (epoch * rows) as nat, *self, tr),
                epoch >= 1 ==> forall|q: int|
                    0 <= q < rows ==> has_hot(#[trigger] ys.row_view(q)),
            decreases epochs - epoch,
        {
            let mut i: usize = 0;
            while i < rows
                invariant
                    net0 == *old(self),
                    net0.wf(),
                    xs.wf(),
                    ys.wf(),
                    rows == xs.rows,
                    xs.rows == ys.rows,
                    xs.cols == net0.n@[0],
                    ys.cols == net0.n@[net0.l as int],
                    epoch < epochs,
                    i <= rows,
                    self.wf(),
                    self.l == net0.l,
                    self.n@ == net0.n@,
                    fit_trace(net0, *xs, *ys, alpha, (epoch * rows + i) as nat, *self, tr),
                    epoch == 0 ==> forall|q: int|
                        0 <= q < i ==> has_hot(#[trigger] ys.row_view(q)),
                    epoch >= 1 ==> forall|q: int|
                        0 <= q < rows ==> has_hot(#[trigger] ys.row_view(q)),
                decreases rows - i,
            {
                let ghost pre_s = *self;
                let xraw = xs.row(i);
                let xrow = xraw.unwrap();
                let x = xrow.t();
                let yraw = ys.row(i);
                let yrow = yraw.unwrap();
                let y = yrow.t();
                proof {
                    lemma_row_column(xrow, x);
                    lemma_row_column(yrow, y);
                }
                self.forward(x);
                let ghost m1 = *self;
                let eres = self.error(&y);
                let ghost m2 = *self;
                if let Err(e) = eres {
                    proof {
                        assert(!has_hot(ys.row_view(i as int)));
                    }
                    return Err(e);
                }
                self.delta(&y);
                let ghost m3 = *self;
                self.gradient_descent(alpha);
                proof {
                    assert(forward_rel(pre_s, xs.row_view(i as int), m1));
                    assert(error_rel(m1, ys.row_view(i as int), m2));
                    assert(delta_rel(m2, ys.row_view(i as int), m3));
                    assert(gd_rel(m3, alpha, *self));
                    assert(sample_step(pre_s, *xs, *ys, alpha, i as int, *self));
                    assert((epoch as int) * (rows as int) >= 0) by (nonlinear_arith)
                        requires
                            (epoch as int) >= 0,
                            (rows as int) >= 0,
                    ;
                    let t0: nat = (epoch * rows + i) as nat;
                    lemma_fundamental_div_mod_converse(
                        (epoch * rows + i) as int,
                        rows as int,
                        epoch as int,
                        i as int,
                    );
                    assert((t0 as int) % (xs.rows as int) == i as int);
                    assert(sample_step(
                        pre_s,
                        *xs,
                        *ys,
                        alpha,
                        (t0 as int) % (xs.rows as int),
                        *self,
                    ));
                    let prev = tr;
                    tr = tr.push(*self);
                    assert forall|k: int| 0 <= k < t0 + 1 implies sample_step(
                        #[trigger] tr[k],
                        *xs,
                        *ys,
                        alpha,
                        k % (xs.rows as int),
                        tr[k + 1],
                    ) by {
                        if k < t0 {
                            assert(tr[k] == prev[k]);
                            assert(tr[k + 1] == prev[k + 1]);
                            assert(sample_step(
                                prev[k],
                                *xs,
                                *ys,
                                alpha,
                                k % (xs.rows as int),
                                prev[k + 1],
                            ));
                        } else {
                            assert(tr[k] == prev[t0 as int]);
                            assert(tr[k] == pre_s);
                            assert(tr[k + 1] == *self);
                        }
                    }
                    assert(fit_trace(
                        net0,
                        *xs,
                        *ys,
                        alpha,
                        (epoch * rows + i + 1) as nat,
                        *self,
                        tr,
                    ));
                }
                i = i + 1;
            }
            epoch = epoch + 1;
            proof {
                assert((epoch as int) * (rows as int) == ((epoch - 1) as int) * (rows as int)
                    + (rows as int)) by (nonlinear_arith);
                assert((epoch as int) * (rows as int) >= 0) by (nonlinear_arith)
                    requires
                        (epoch as int) >= 0,
                        (rows as int) >= 0,
                ;
            }
        }
        proof {
            assert(fit_trace(net0, *xs, *ys, alpha, (epochs * xs.rows) as nat, *self, tr));
            assert(fit_steps(net0, *xs, *ys, alpha, (epochs * xs.rows) as nat, *self));
            if epochs >= 1 && exists|q: int| 0 <= q < xs.rows && !has_hot(#[trigger] ys.row_view(q)) {
                let q = choose|q: int| 0 <= q < xs.rows && !has_hot(#[trigger] ys.row_view(q));
                assert(has_hot(ys.row_view(q)));
            }
        }
        Ok(())
    }
}

/// A one-row matrix and its transpose hold the same buffer: the transpose is
/// the same values as a column.
proof fn lemma_row_column<T>(rm: Matrix<T>, x: Matrix<T>)
    requires
        rm.wf(),
        rm.rows == 1,
        x.wf(),
        is_transpose(x, rm),
    ensures
        x.rows == rm.cols,
        x.cols == 1,
        x.data@ == rm.data@,
{
    assert((x.rows as int) * (x.cols as int) == x.rows) by (nonlinear_arith)
        requires
            (x.cols as int) == 1,
    ;
    assert((rm.rows as int) * (rm.cols as int) == rm.cols) by (nonlinear_arith)
        requires
            (rm.rows as int) == 1,
    ;
    assert forall|q: int| 0 <= q < rm.cols implies x.data@[q] == rm.data@[q] by {
        assert(q * (x.cols as int) + 0 == q) by (nonlinear_arith)
            requires
                (x.cols as int) == 1,
        ;
        assert(0 * (rm.cols as int) + q == q) by (nonlinear_arith);
        assert(x.idx(q, 0) == rm.idx(0, q));
    }
    assert(x.data@ =~= rm.data@);
}


/// Assembles a network one declaration at a time: either layer sizes one by
/// one, or a whole architecture at once. The two modes exclude each other: a
/// call belonging to the mode not in use is silently ignored, exactly as a
/// finalize-time check expects to find the builder.
pub struct NetworkBuilder {
    pub nn_l: usize,
    pub nn_n: Vec<usize>,
    pub architecture_flag: bool,
    pub layer_flag: bool,
}

/// The number of non-input layers a builder's declarations describe: in
/// architecture mode the recorded count itself, in layer mode one less than
/// the number of declared sizes.
pub open spec fn builder_l(b: NetworkBuilder) -> int {
    if b.architecture_flag {
        b.nn_l as int
    } else {
        b.nn_l - 1
    }
}

/// The condition under which finalizing succeeds: the declarations form an
/// architecture of at least one non-input layer, the size list agrees with
/// the declaration count, and the supplied weights and biases fit that
/// architecture.
pub open spec fn build_ok<T>(b: NetworkBuilder, ws: Seq<Matrix<T>>, bs: Seq<Matrix<T>>) -> bool {
    &&& builder_l(b) >= 1
    &&& b.nn_n@.len() == builder_l(b) + 1
    &&& arch_fits(b.nn_n@, ws, bs)
}

impl Default for NetworkBuilder {
    /// An empty builder: no declarations, neither mode chosen.
    fn default() -> (r: NetworkBuilder)
        ensures
            r.nn_l == 0,
            r.nn_n@.len() == 0,
            !r.architecture_flag,
            !r.layer_flag,
    {
        NetworkBuilder { nn_l: 0, nn_n: Vec::new(), architecture_flag: false, layer_flag: false }
    }
}

impl NetworkBuilder {
    /// Declares one more layer of `num_neurons` neurons. Ignored, leaving the
    /// builder exactly as it was, when the whole-architecture mode has
    /// already been used.
    pub fn add_layer(&mut self, num_neurons: usize) -> (r: &mut NetworkBuilder)
        requires
            old(self).nn_l < usize::MAX,
        ensures
            old(self).architecture_flag ==> *r == *old(self),
            !old(self).architecture_flag ==> r.nn_l == old(self).nn_l + 1 && r.nn_n@ == old(
                self,
            ).nn_n@.push(num_neurons) && r.layer_flag && r.architecture_flag == old(
                self,
            ).architecture_flag,
            *final(self) == *final(r),
    {
        if self.architecture_flag {
            return self;
        }
        self.nn_n.push(num_neurons);
        self.layer_flag = true;
        self.nn_l = self.nn_l + 1;
        self
    }

    /// Declares the whole architecture at once, input size first. Ignored,
    /// leaving the builder exactly as it was, when sizes have already been
    /// declared one at a time.
    pub fn architecture(&mut self, architecture: &Vec<usize>) -> (r: &mut NetworkBuilder)
        requires
            !old(self).layer_flag ==> architecture@.len() >= 1,
        ensures
            old(self).layer_flag ==> *r == *old(self),
            !old(self).layer_flag ==> r.architecture_flag && r.layer_flag == old(self).layer_flag
                && r.nn_l == architecture@.len() - 1 && r.nn_n@ == architecture@,
            *final(self) == *final(r),
    {
        if self.layer_flag {
            return self;
        }
        self.architecture_flag = true;
        self.nn_l = architecture.len() - 1;
        self.nn_n = copy_usize_vec(architecture);
        self
    }

    /// Finalizes the declarations into a network, drawing its weight
    /// matrices and bias columns in layer order from the two vectors, or
    /// reports `TopologyMismatch` when the declarations and the supplied
    /// parameters do not form one consistent architecture.
    pub fn build<T: Scalar>(&self, weights: Vec<Matrix<T>>, biases: Vec<Matrix<T>>) -> (r: Result<
        Network<T>,
        Error,
    >)
        ensures
            build_ok(*self, weights@, biases@) ==> (r matches Ok(net) && net.wf() && net_fresh(
                net,
                self.nn_n@,
                weights@,
                biases@,
            )),
            !build_ok(*self, weights@, biases@) ==> r == Err::<Network<T>, Error>(
                Error::TopologyMismatch,
            ),
    {
        let l: usize;
        if self.architecture_flag {
            l = self.nn_l;
        } else {
            if self.nn_l == 0 {
                return Err(Error::TopologyMismatch);
            }
            l = self.nn_l - 1;
        }
        if l < 1 {
            return Err(Error::TopologyMismatch);
        }
        if self.nn_n.len() < 1 || self.nn_n.len() - 1 != l {
            return Err(Error::TopologyMismatch);
        }
        if weights.len() != l || biases.len() != l {
            return Err(Error::TopologyMismatch);
        }
        let mut i: usize = 1;
        while i <= l
            invariant
                1 <= i <= l + 1,
                l == builder_l(*self),
                l < usize::MAX,
                self.nn_n@.len() == l + 1,
                weights@.len() == l,
                biases@.len() == l,
                forall|j: int|
                    1 <= j < i ==> (#[trigger] (self.nn_n@[j] as int)) * (self.nn_n@[j - 1] as int)
                        <= usize::MAX,
                forall|j: int|
                    0 <= j < i - 1 ==> (#[trigger] weights@[j]).wf() && weights@[j].rows
                        == self.nn_n@[j + 1] && weights@[j].cols == self.nn_n@[j],
                forall|j: int|
                    0 <= j < i - 1 ==> (#[trigger] biases@[j]).wf() && biases@[j].rows
                        == self.nn_n@[j + 1] && biases@[j].cols == 1,
            decreases l + 1 - i,
        {
            let ni = self.nn_n[i];
            let nprev = self.nn_n[i - 1];
            let prod: usize;
            match ni.checked_mul(nprev) {
                Some(p) => {
                    prod = p;
                },
                None => {
                    return Err(Error::TopologyMismatch);
                },
            }
            let w = &weights[i - 1];
            if w.rows != ni || w.cols != nprev || w.data.len() != prod {
                return Err(Error::TopologyMismatch);
            }
            let b = &biases[i - 1];
            if b.rows != ni || b.cols != 1 || b.data.len() != ni {
                return Err(Error::TopologyMismatch);
            }
            proof {
                assert((b.rows as int) * (b.cols as int) == b.rows) by (nonlinear_arith)
                    requires
                        (b.cols as int) == 1,
                ;
            }
            i = i + 1;
        }
        proof {
            assert(arch_fits(self.nn_n@, weights@, biases@));
        }
        Ok(Network::new(&self.nn_n, weights, biases))
    }
}


} // verus!
