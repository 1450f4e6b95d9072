use vstd::prelude::*;

use crate::activations::{sigmoid_deriv_spec, sigmoid_spec, Activation};
use crate::error::MathError;
use crate::fixed::{in_i64, lemma_flat_decompose, lemma_flat_index, mul_wide, scale_div, scale_down, scale_down_wide, SCALE};
use crate::matrix::Matrix;
use crate::rng::RngSource;
use vstd::pervasive::VecAdditionalExecFns;

verus! {

/// The mathematical values of a vector of scalars.
pub open spec fn ints_of(v: Seq<i64>) -> Seq<int> {
    Seq::new(v.len(), |i: int| v[i] as int)
}

/// The column of mathematical values of a single-column matrix.
pub open spec fn column(m: Matrix) -> Seq<int> {
    Seq::new(m.rows as nat, |i: int| m.entry(i, 0))
}

/// The partial inner product of row `i` of `w` with the column `a`, over the
/// first `k` terms.
pub open spec fn row_dot_prefix(w: Matrix, a: Seq<int>, i: int, k: int) -> int
    decreases k,
{
    if k <= 0 {
        0
    } else {
        row_dot_prefix(w, a, i, k - 1) + w.entry(i, k - 1) * a[k - 1]
    }
}

/// Row `i` of the affine image of the column `a`: the scaled inner product
/// with row `i` of the weights, plus the bias.
pub open spec fn affine_at(w: Matrix, b: Matrix, a: Seq<int>, i: int) -> int {
    scale_div(row_dot_prefix(w, a, i, w.cols as int)) + b.entry(i, 0)
}

/// One step of the forward pass: the affine image of `a` under the layer's
/// weights and bias, passed through the sigmoid entrywise.
pub open spec fn layer_out(w: Matrix, b: Matrix, a: Seq<int>) -> Seq<int> {
    Seq::new(w.rows as nat, |i: int| sigmoid_spec(affine_at(w, b, a, i)))
}

/// Whether one forward step stays inside the scalar range: every partial
/// inner product, and every biased sum.
pub open spec fn step_fits(w: Matrix, b: Matrix, a: Seq<int>) -> bool {
    &&& (forall|i: int, k: int|
        0 <= i < w.rows && 0 <= k <= w.cols ==> in_i64(#[trigger] row_dot_prefix(w, a, i, k)))
    &&& (forall|i: int| 0 <= i < w.rows ==> in_i64(#[trigger] affine_at(w, b, a, i)))
}

/// Whether the whole forward chain from level `t` onward, started on the
/// column `a`, stays inside the scalar range.
pub open spec fn chain_fits(ws: Seq<Matrix>, bs: Seq<Matrix>, a: Seq<int>, t: int) -> bool
    decreases ws.len() - t,
{
    if t >= ws.len() {
        true
    } else {
        step_fits(ws[t], bs[t], a) && chain_fits(ws, bs, layer_out(ws[t], bs[t], a), t + 1)
    }
}

/// A multilayer perceptron: one weight matrix and one bias column per
/// adjacent pair of layer sizes, trained by stochastic gradient descent.
/// The weights and biases are the one mutable state of the core: every
/// training step overwrites them in place, while `Matrix` operations always
/// return fresh values.
pub struct Network {
    pub layer_sizes: Vec<usize>,
    pub weights: Vec<Matrix>,
    pub biases: Vec<Matrix>,
    pub layer_activations: Vec<Matrix>,
    pub learning_rate: i64,
}

impl Network {
    /// The structural invariant: at least two layers, one weight matrix of
    /// shape `(sizes[t+1], sizes[t])` and one bias column of shape
    /// `(sizes[t+1], 1)` per transition, and a positive learning rate.
    pub open spec fn wf(&self) -> bool {
        &&& self.layer_sizes@.len() >= 2
        &&& self.weights@.len() == self.layer_sizes@.len() - 1
        &&& self.biases@.len() == self.layer_sizes@.len() - 1
        &&& self.learning_rate >= 1
        &&& (forall|t: int|
            0 <= t < self.weights@.len() ==> {
                &&& (#[trigger] self.weights@[t]).wf()
                &&& self.weights@[t].rows == self.layer_sizes@[t + 1]
                &&& self.weights@[t].cols == self.layer_sizes@[t]
            })
        &&& (forall|t: int|
            0 <= t < self.biases@.len() ==> {
                &&& (#[trigger] self.biases@[t]).wf()
                &&& self.biases@[t].rows == self.layer_sizes@[t + 1]
                &&& self.biases@[t].cols == 1
            })
    }

    /// Builds a network for the given layer sizes, with every weight and
    /// bias drawn from the source in the scaled unit range `[-1, 1)`.
    /// Fails exactly when fewer than two layer sizes are supplied.
    pub fn new(layer_sizes: Vec<usize>, learning_rate: i64, source: &mut RngSource) -> (r: Result<
        Network,
        MathError,
    >)
        requires
            learning_rate >= 1,
        ensures
            layer_sizes@.len() < 2 <==> r == Err::<Network, MathError>(
                MathError::InvalidConfiguration,
            ),
            layer_sizes@.len() >= 2 ==> r is Ok,
            r matches Ok(n) ==> ({
                &&& n.wf()
                &&& n.layer_sizes@ == layer_sizes@
                &&& n.learning_rate == learning_rate
                &&& n.layer_activations@.len() == 0
                &&& (forall|t: int, i: int, j: int|
                    0 <= t < n.weights@.len() && 0 <= i < n.weights@[t].rows && 0 <= j
                        < n.weights@[t].cols ==> -(SCALE as int) <= #[trigger] n.weights@[t].entry(
                        i,
                        j,
                    ) < SCALE as int)
                &&& (forall|t: int, i: int|
                    0 <= t < n.biases@.len() && 0 <= i < n.biases@[t].rows ==> -(SCALE as int)
                        <= #[trigger] n.biases@[t].entry(i, 0) < SCALE as int)
            }),
    {
        if layer_sizes.len() < 2 {
            return Err(MathError::InvalidConfiguration);
        }
        let count: usize = layer_sizes.len() - 1;
        let mut weights: Vec<Matrix> = Vec::new();
        let mut biases: Vec<Matrix> = Vec::new();
        let mut t: usize = 0;
        while t < count
            invariant
                layer_sizes@.len() >= 2,
                count == layer_sizes@.len() - 1,
                t <= count,
                weights@.len() == t,
                biases@.len() == t,
                forall|u: int|
                    0 <= u < t ==> {
                        &&& (#[trigger] weights@[u]).wf()
                        &&& weights@[u].rows == layer_sizes@[u + 1]
                        &&& weights@[u].cols == layer_sizes@[u]
                    },
                forall|u: int|
                    0 <= u < t ==> {
                        &&& (#[trigger] biases@[u]).wf()
                        &&& biases@[u].rows == layer_sizes@[u + 1]
                        &&& biases@[u].cols == 1
                    },
                forall|u: int, i: int, j: int|
                    0 <= u < t && 0 <= i < weights@[u].rows && 0 <= j < weights@[u].cols ==> -(
                    SCALE as int) <= #[trigger] weights@[u].entry(i, j) < SCALE as int,
                forall|u: int, i: int|
                    0 <= u < t && 0 <= i < biases@[u].rows ==> -(SCALE as int)
                        <= #[trigger] biases@[u].entry(i, 0) < SCALE as int,
            decreases count - t,
        {
            let w = Matrix::random(layer_sizes[t + 1], layer_sizes[t], source);
            let b = Matrix::random(layer_sizes[t + 1], 1, source);
            weights.push(w);
            biases.push(b);
            t += 1;
        }
        Ok(
            Network {
                layer_sizes,
                weights,
                biases,
                layer_activations: Vec::new(),
                learning_rate,
            },
        )
    }

    /// Runs the forward pass on an input of the first layer's width,
    /// retaining every layer's activation for the next backward pass, and
    /// returns the output layer's activation.  Fails exactly when the input
    /// has the wrong width, or — the machine-width artifact — when the
    /// chain of affine images leaves the scalar range; on any failure the
    /// network is unchanged.
    pub fn feed_forward(&mut self, input: Vec<i64>) -> (r: Result<Vec<i64>, MathError>)
        requires
            old(self).wf(),
        ensures
            final(self).wf(),
            final(self).layer_sizes@ == old(self).layer_sizes@,
            final(self).weights@ == old(self).weights@,
            final(self).biases@ == old(self).biases@,
            final(self).learning_rate == old(self).learning_rate,
            r is Err ==> final(self).layer_activations@ == old(self).layer_activations@,
            (input@.len() != old(self).layer_sizes@[0]) <==> r == Err::<Vec<i64>, MathError>(
                MathError::ShapeMismatch {
                    left_rows: old(self).layer_sizes@[0],
                    left_cols: 1usize,
                    right_rows: input@.len() as usize,
                    right_cols: 1usize,
                },
            ),
            (input@.len() == old(self).layer_sizes@[0] && chain_fits(
                old(self).weights@,
                old(self).biases@,
                ints_of(input@),
                0,
            )) ==> r is Ok,
            (input@.len() == old(self).layer_sizes@[0] && !chain_fits(
                old(self).weights@,
                old(self).biases@,
                ints_of(input@),
                0,
            )) ==> r == Err::<Vec<i64>, MathError>(MathError::Overflow),
            r matches Ok(out) ==> ({
                let acts = final(self).layer_activations@;
                &&& acts.len() == old(self).layer_sizes@.len()
                &&& (forall|t: int|
                    0 <= t < acts.len() ==> (#[trigger] acts[t]).wf() && acts[t].cols == 1
                        && acts[t].rows == old(self).layer_sizes@[t])
                &&& column(acts[0]) == ints_of(input@)
                &&& (forall|t: int|
                    0 <= t < acts.len() - 1 ==> column(#[trigger] acts[t + 1]) == layer_out(
                        old(self).weights@[t],
                        old(self).biases@[t],
                        column(acts[t]),
                    ))
                &&& (forall|t: int, i: int|
                    1 <= t < acts.len() && 0 <= i < acts[t].rows ==> 0 < #[trigger] acts[t].entry(
                        i,
                        0,
                    ) < SCALE)
                &&& out@.len() == old(self).layer_sizes@[old(self).layer_sizes@.len() - 1]
                &&& ints_of(out@) == column(acts[acts.len() - 1])
            }),
    {
        let width: usize = self.layer_sizes[0];
        if input.len() != width {
            return Err(MathError::ShapeMismatch {
                left_rows: width,
                left_cols: 1,
                right_rows: input.len(),
                right_cols: 1,
            });
        }
        let ghost input_col: Seq<int> = ints_of(input@);
        let t_count: usize = self.weights.len();
        let mut cur: Matrix = Matrix { rows: input.len(), cols: 1, data: input };
        proof {
            crate::fixed::lemma_mul_one(cur.rows as int);
            assert(cur.wf());
            lemma_column_is_data(cur);
            assert(column(cur) =~= input_col);
        }
        let mut acts: Vec<Matrix> = Vec::new();
        acts.push(cur.duplicate());
        let mut t: usize = 0;
        while t < t_count
            invariant
                old(self).wf(),
                self.layer_sizes@ == old(self).layer_sizes@,
                self.weights@ == old(self).weights@,
                self.biases@ == old(self).biases@,
                self.learning_rate == old(self).learning_rate,
                self.layer_activations@ == old(self).layer_activations@,
                self.wf(),
                input@.len() == old(self).layer_sizes@[0],
                input_col == ints_of(input@),
                t_count == self.weights@.len(),
                t <= t_count,
                acts@.len() == t + 1,
                cur.wf(),
                cur.cols == 1,
                cur.rows == self.layer_sizes@[t as int],
                acts@[t as int].rows == cur.rows,
                acts@[t as int].cols == 1,
                acts@[t as int].data@ == cur.data@,
                forall|u: int|
                    0 <= u <= t ==> (#[trigger] acts@[u]).wf() && acts@[u].cols == 1
                        && acts@[u].rows == self.layer_sizes@[u],
                column(acts@[0]) == input_col,
                forall|u: int|
                    0 <= u < t ==> column(#[trigger] acts@[u + 1]) == layer_out(
                        self.weights@[u],
                        self.biases@[u],
                        column(acts@[u]),
                    ),
                forall|u: int, i: int|
                    1 <= u <= t && 0 <= i < acts@[u].rows ==> 0 < #[trigger] acts@[u].entry(i, 0)
                        < SCALE,
                chain_fits(self.weights@, self.biases@, input_col, 0) <==> chain_fits(
                    self.weights@,
                    self.biases@,
                    column(cur),
                    t as int,
                ),
            decreases t_count - t,
        {
            let z = match self.weights[t].multiply(&cur) {
                Ok(z) => z,
                Err(_) => {
                    proof {
                        lemma_mul_fits_column(self.weights@[t as int], cur, column(cur));
                        if step_fits(
                            self.weights@[t as int],
                            self.biases@[t as int],
                            column(cur),
                        ) {
                            assert(self.weights@[t as int].mul_fits(&cur));
                            assert(false);
                        }
                        assert(!chain_fits(self.weights@, self.biases@, column(cur), t as int));
                    }
                    return Err(MathError::Overflow);
                },
            };
            let zs = scale_matrix(&z);
            let s = match zs.add(&self.biases[t]) {
                Ok(s) => s,
                Err(_) => {
                    proof {
                        lemma_affine_entries(
                            self.weights@[t as int],
                            self.biases@[t as int],
                            cur,
                            z,
                            zs,
                        );
                        if step_fits(
                            self.weights@[t as int],
                            self.biases@[t as int],
                            column(cur),
                        ) {
                            assert forall|i: int, j: int|
                                0 <= i < zs.rows && 0 <= j < zs.cols implies in_i64(
                                (#[trigger] zs.entry(i, j)) + self.biases@[t as int].entry(i, j),
                            ) by {
                                assert(j == 0);
                                assert(zs.entry(i, 0) + self.biases@[t as int].entry(i, 0)
                                    == affine_at(
                                    self.weights@[t as int],
                                    self.biases@[t as int],
                                    column(cur),
                                    i,
                                ));
                            }
                            assert(zs.sum_fits(&self.biases@[t as int]));
                            assert(false);
                        }
                        assert(!chain_fits(self.weights@, self.biases@, column(cur), t as int));
                    }
                    return Err(MathError::Overflow);
                },
            };
            let nxt = s.map(Activation::sigmoid_function);
            proof {
                lemma_mul_fits_column(self.weights@[t as int], cur, column(cur));
                lemma_affine_entries(
                    self.weights@[t as int],
                    self.biases@[t as int],
                    cur,
                    z,
                    zs,
                );
                assert(self.weights@[t as int].mul_fits(&cur));
                assert(zs.sum_fits(&self.biases@[t as int]));
                assert forall|i: int|
                    0 <= i < self.weights@[t as int].rows implies in_i64(
                    #[trigger] affine_at(
                        self.weights@[t as int],
                        self.biases@[t as int],
                        column(cur),
                        i,
                    ),
                ) by {
                    assert(zs.entry(i, 0) + self.biases@[t as int].entry(i, 0) == affine_at(
                        self.weights@[t as int],
                        self.biases@[t as int],
                        column(cur),
                        i,
                    ));
                    assert(in_i64(zs.entry(i, 0) + self.biases@[t as int].entry(i, 0)));
                }
                assert(step_fits(self.weights@[t as int], self.biases@[t as int], column(cur)));
                assert forall|i: int| 0 <= i < nxt.rows implies column(nxt)[i] == layer_out(
                    self.weights@[t as int],
                    self.biases@[t as int],
                    column(cur),
                )[i] by {
                    assert(s.entry(i, 0) == affine_at(
                        self.weights@[t as int],
                        self.biases@[t as int],
                        column(cur),
                        i,
                    ));
                    assert(call_ensures(
                        Activation::sigmoid_function,
                        (s.val(i, 0),),
                        nxt.val(i, 0),
                    ));
                }
                assert(column(nxt) =~= layer_out(
                    self.weights@[t as int],
                    self.biases@[t as int],
                    column(cur),
                ));
                assert(chain_fits(self.weights@, self.biases@, column(cur), t as int)
                    <==> chain_fits(self.weights@, self.biases@, column(nxt), t as int + 1));
                assert forall|i: int| 0 <= i < nxt.rows implies 0 < #[trigger] nxt.entry(i, 0)
                    < SCALE by {
                    assert(call_ensures(
                        Activation::sigmoid_function,
                        (s.val(i, 0),),
                        nxt.val(i, 0),
                    ));
                }
            }
            let ghost prev = cur;
            cur = nxt;
            acts.push(cur.duplicate());
            t += 1;
            proof {
                assert(column(acts@[t as int]) =~= column(cur));
                assert(column(acts@[t - 1]) =~= column(prev));
                assert(column(acts@[t as int]) == layer_out(
                    self.weights@[t - 1],
                    self.biases@[t - 1],
                    column(acts@[t - 1]),
                ));
                assert forall|i: int|
                    0 <= i < acts@[t as int].rows implies 0 < #[trigger] acts@[t as int].entry(
                    i,
                    0,
                ) < SCALE by {
                    assert(acts@[t as int].entry(i, 0) == cur.entry(i, 0));
                }
            }
        }
        self.layer_activations = acts;
        let ghost sizes = old(self).layer_sizes@;
        proof {
            assert(column(self.layer_activations@[sizes.len() - 1]) =~= column(cur));
        }
        let out: Vec<i64> = cur.data;
        proof {
            assert(ints_of(out@) =~= column(
                self.layer_activations@[self.layer_activations@.len() - 1],
            ));
        }
        Ok(out)
    }
}

/// Brings every entry of a product matrix back to scale by the truncating
/// division.
fn scale_matrix(m: &Matrix) -> (r: Matrix)
    requires
        m.wf(),
    ensures
        r.rows == m.rows,
        r.cols == m.cols,
        r.wf(),
        forall|i: int, j: int|
            0 <= i < m.rows && 0 <= j < m.cols ==> #[trigger] r.entry(i, j) == scale_div(
                m.entry(i, j),
            ),
{
    let n: usize = m.data.len();
    let mut data: Vec<i64> = Vec::new();
    let mut t: usize = 0;
    while t < n
        invariant
            m.wf(),
            n == m.data@.len(),
            t <= n,
            data@.len() == t,
            forall|u: int| 0 <= u < t ==> (#[trigger] data@[u]) as int == scale_div(m.data@[u] as int),
        decreases n - t,
    {
        let v: i64 = scale_down(m.data[t]);
        data.push(v);
        t += 1;
    }
    let r = Matrix { rows: m.rows, cols: m.cols, data };
    proof {
        assert forall|i: int, j: int|
            0 <= i < m.rows && 0 <= j < m.cols implies #[trigger] r.entry(i, j) == scale_div(
            m.entry(i, j),
        ) by {
            crate::fixed::lemma_flat_index(i, j, m.rows as int, m.cols as int);
        }
    }
    r
}

/// Connects the matrix-level view of one forward step with the column-level
/// one: the scaled product's entries are the scaled inner products, so the
/// biased sums are exactly the affine images.
proof fn lemma_affine_entries(w: Matrix, b: Matrix, a: Matrix, z: Matrix, zs: Matrix)
    requires
        w.wf(),
        a.wf(),
        a.cols == 1,
        w.cols == a.rows,
        z.wf(),
        z.rows == w.rows,
        z.cols == 1,
        forall|i: int, j: int|
            0 <= i < w.rows && 0 <= j < 1 ==> #[trigger] z.entry(i, j) == w.mul_entry(&a, i, j),
        zs.rows == z.rows,
        zs.cols == z.cols,
        zs.wf(),
        forall|i: int, j: int|
            0 <= i < z.rows && 0 <= j < z.cols ==> #[trigger] zs.entry(i, j) == scale_div(
                z.entry(i, j),
            ),
    ensures
        forall|i: int|
            0 <= i < w.rows ==> #[trigger] zs.entry(i, 0) + b.entry(i, 0) == affine_at(
                w,
                b,
                column(a),
                i,
            ),
{
    assert forall|i: int| 0 <= i < w.rows implies #[trigger] zs.entry(i, 0) + b.entry(i, 0)
        == affine_at(w, b, column(a), i) by {
        lemma_prod_prefix_column(w, a, i, w.cols as int);
        assert(z.entry(i, 0) == w.mul_entry(&a, i, 0));
        assert(zs.entry(i, 0) == scale_div(w.prod_prefix(&a, i, 0, w.cols as int)));
    }
}

/// The column of a single-column matrix reads the flat store directly.
proof fn lemma_column_is_data(m: Matrix)
    requires
        m.wf(),
        m.cols == 1,
    ensures
        m.data@.len() == m.rows,
        column(m) =~= ints_of(m.data@),
{
    crate::fixed::lemma_mul_one(m.rows as int);
    assert forall|i: int| 0 <= i < m.rows implies column(m)[i] == ints_of(m.data@)[i] by {
        crate::fixed::lemma_mul_one(i);
        assert(m.entry(i, 0) == m.data@[i] as int);
    }
}

/// The stored activations of a successful forward pass are exactly the
/// forward chain's columns.
proof fn lemma_acts_are_chain(
    ws: Seq<Matrix>,
    bs: Seq<Matrix>,
    acts: Seq<Matrix>,
    a0: Seq<int>,
    t: int,
)
    requires
        acts.len() == ws.len() + 1,
        column(acts[0]) == a0,
        forall|u: int|
            0 <= u < acts.len() - 1 ==> column(#[trigger] acts[u + 1]) == layer_out(
                ws[u],
                bs[u],
                column(acts[u]),
            ),
        0 <= t < acts.len(),
    ensures
        column(acts[t]) == chain_col(ws, bs, a0, t),
    decreases t,
{
    if t > 0 {
        lemma_acts_are_chain(ws, bs, acts, a0, t - 1);
        assert(column(acts[(t - 1) + 1]) == layer_out(ws[t - 1], bs[t - 1], column(acts[t - 1])));
    }
}

/// The backpropagated error over stored activations equals its form over
/// the forward chain's columns.
proof fn lemma_err_col(
    ws: Seq<Matrix>,
    bs: Seq<Matrix>,
    acts: Seq<Matrix>,
    a0: Seq<int>,
    tgt: Seq<int>,
    t: int,
)
    requires
        acts.len() == ws.len() + 1,
        column(acts[0]) == a0,
        forall|u: int|
            0 <= u < acts.len() - 1 ==> column(#[trigger] acts[u + 1]) == layer_out(
                ws[u],
                bs[u],
                column(acts[u]),
            ),
        0 <= t < ws.len(),
    ensures
        err_at(ws, acts, tgt, t) == err_col(ws, bs, a0, tgt, t),
    decreases ws.len() - t,
{
    if t >= ws.len() - 1 {
        lemma_acts_are_chain(ws, bs, acts, a0, ws.len() as int);
        assert(err_at(ws, acts, tgt, t) =~= err_col(ws, bs, a0, tgt, t)) by {
            assert forall|i: int|
                0 <= i < tgt.len() implies err_at(ws, acts, tgt, t)[i] == err_col(
                ws,
                bs,
                a0,
                tgt,
                t,
            )[i] by {
                assert(column(acts[acts.len() - 1])[i] == chain_col(ws, bs, a0, ws.len() as int)[i]);
            }
        }
    } else {
        lemma_err_col(ws, bs, acts, a0, tgt, t + 1);
        lemma_acts_are_chain(ws, bs, acts, a0, t + 2);
    }
}

/// A single-column right operand makes the matrix product a column of inner
/// products: the two prefix forms agree term by term.
proof fn lemma_prod_prefix_column(w: Matrix, m: Matrix, i: int, k: int)
    requires
        m.cols == 1,
        k <= m.rows,
    ensures
        w.prod_prefix(&m, i, 0, k) == row_dot_prefix(w, column(m), i, k),
    decreases k,
{
    if k > 0 {
        lemma_prod_prefix_column(w, m, i, k - 1);
        assert(column(m)[k - 1] == m.entry(k - 1, 0));
    }
}

/// The in-range condition of a single-column matrix product is exactly the
/// inner-product half of the forward step's in-range condition.
proof fn lemma_mul_fits_column(w: Matrix, m: Matrix, a: Seq<int>)
    requires
        w.wf(),
        m.wf(),
        m.cols == 1,
        w.cols == m.rows,
        a == column(m),
    ensures
        w.mul_fits(&m) <==> (forall|i: int, k: int|
            0 <= i < w.rows && 0 <= k <= w.cols ==> in_i64(#[trigger] row_dot_prefix(w, a, i, k))),
{
    if w.mul_fits(&m) {
        assert forall|i: int, k: int|
            0 <= i < w.rows && 0 <= k <= w.cols implies in_i64(
            #[trigger] row_dot_prefix(w, a, i, k),
        ) by {
            lemma_prod_prefix_column(w, m, i, k);
            assert(in_i64(w.prod_prefix(&m, i, 0, k)));
        }
    }
    if forall|i: int, k: int|
        0 <= i < w.rows && 0 <= k <= w.cols ==> in_i64(#[trigger] row_dot_prefix(w, a, i, k)) {
        assert forall|i: int, j: int, k: int|
            0 <= i < w.rows && 0 <= j < m.cols && 0 <= k <= w.cols implies in_i64(
            #[trigger] w.prod_prefix(&m, i, j, k),
        ) by {
            assert(j == 0);
            lemma_prod_prefix_column(w, m, i, k);
            assert(in_i64(row_dot_prefix(w, a, i, k)));
        }
        assert(w.mul_fits(&m));
    }
}

/// The partial inner product of column `j` of `w` with the column `g`, over
/// the first `k` terms: one entry of the transposed product.
pub open spec fn col_dot_prefix(w: Matrix, g: Seq<int>, j: int, k: int) -> int
    decreases k,
{
    if k <= 0 {
        0
    } else {
        col_dot_prefix(w, g, j, k - 1) + w.entry(k - 1, j) * g[k - 1]
    }
}

/// The error column handed to the previous layer: the transposed weights
/// applied to the unscaled gradient, brought back to scale.
pub open spec fn back_error(w: Matrix, g: Seq<int>) -> Seq<int> {
    Seq::new(w.cols as nat, |j: int| scale_div(col_dot_prefix(w, g, j, w.rows as int)))
}

/// An error column damped entrywise by the sigmoid derivative of the
/// layer's activation: the unscaled gradient of that layer.
pub open spec fn damped(e: Seq<int>, a: Seq<int>) -> Seq<int> {
    Seq::new(e.len(), |i: int| scale_div(e[i] * sigmoid_deriv_spec(a[i])))
}

/// A column scaled entrywise by the learning rate.
pub open spec fn lr_scaled(g: Seq<int>, lr: int) -> Seq<int> {
    Seq::new(g.len(), |i: int| scale_div(g[i] * lr))
}

/// The error column that reaches transition `t` during backpropagation:
/// at the last transition the target minus the output activation, and
/// below it the previous error pushed back through the pre-update weights.
pub open spec fn err_at(ws: Seq<Matrix>, acts: Seq<Matrix>, tgt: Seq<int>, t: int) -> Seq<int>
    decreases ws.len() - t,
{
    if t >= ws.len() - 1 {
        Seq::new(tgt.len(), |i: int| tgt[i] - column(acts[acts.len() - 1])[i])
    } else {
        back_error(ws[t + 1], damped(err_at(ws, acts, tgt, t + 1), column(acts[t + 2])))
    }
}

/// Entry `i` of the learning-rate-scaled gradient at transition `t`.
pub open spec fn scaled_gradient_at(
    ws: Seq<Matrix>,
    acts: Seq<Matrix>,
    tgt: Seq<int>,
    lr: int,
    t: int,
    i: int,
) -> int {
    lr_scaled(damped(err_at(ws, acts, tgt, t), column(acts[t + 1])), lr)[i]
}

/// The column of activations at level `t` of the forward chain started on
/// the column `a0`.
pub open spec fn chain_col(ws: Seq<Matrix>, bs: Seq<Matrix>, a0: Seq<int>, t: int) -> Seq<int>
    decreases t,
{
    if t <= 0 {
        a0
    } else {
        layer_out(ws[t - 1], bs[t - 1], chain_col(ws, bs, a0, t - 1))
    }
}

/// The error column reaching transition `t`, in terms of the forward
/// chain's columns: the column form of `err_at`.
pub open spec fn err_col(
    ws: Seq<Matrix>,
    bs: Seq<Matrix>,
    a0: Seq<int>,
    tgt: Seq<int>,
    t: int,
) -> Seq<int>
    decreases ws.len() - t,
{
    if t >= ws.len() - 1 {
        Seq::new(tgt.len(), |i: int| tgt[i] - chain_col(ws, bs, a0, ws.len() as int)[i])
    } else {
        back_error(ws[t + 1], damped(err_col(ws, bs, a0, tgt, t + 1), chain_col(ws, bs, a0, t + 2)))
    }
}

/// Whether the backward computations at transition `t` stay inside the
/// scalar range: the learning-rate scaling, the propagated error's partial
/// sums, and both parameter updates.  The damped gradient itself always
/// fits, since the derivative factor is at most a quarter.
pub open spec fn backward_step_fits(
    ws: Seq<Matrix>,
    bs: Seq<Matrix>,
    a0: Seq<int>,
    tgt: Seq<int>,
    lr: int,
    t: int,
) -> bool {
    let g = damped(err_col(ws, bs, a0, tgt, t), chain_col(ws, bs, a0, t + 1));
    let gs = lr_scaled(g, lr);
    &&& (forall|i: int| 0 <= i < ws[t].rows ==> in_i64(#[trigger] gs[i]))
    &&& (forall|j: int, k: int|
        0 <= j < ws[t].cols && 0 <= k <= ws[t].rows ==> in_i64(
            #[trigger] col_dot_prefix(ws[t], g, j, k),
        ))
    &&& (forall|i: int, j: int|
        0 <= i < ws[t].rows && 0 <= j < ws[t].cols ==> in_i64(
            scale_div(gs[i] * chain_col(ws, bs, a0, t)[j]),
        ) && in_i64((#[trigger] ws[t].entry(i, j)) + scale_div(gs[i] * chain_col(ws, bs, a0, t)[j])))
    &&& (forall|i: int| 0 <= i < bs[t].rows ==> in_i64(bs[t].entry(i, 0) + #[trigger] gs[i]))
}

/// Whether one whole stochastic-gradient step on an example stays inside
/// the scalar range, so that the step is owed success: the forward chain,
/// the output error, and every transition's backward computations.
pub open spec fn training_step_fits(net: Network, input: Seq<i64>, target: Seq<i64>) -> bool {
    let ws = net.weights@;
    let bs = net.biases@;
    let a0 = ints_of(input);
    let tgt = ints_of(target);
    &&& chain_fits(ws, bs, a0, 0)
    &&& (forall|i: int|
        0 <= i < tgt.len() ==> in_i64(
            (#[trigger] tgt[i]) - chain_col(ws, bs, a0, ws.len() as int)[i],
        ))
    &&& (forall|t: int|
        0 <= t < ws.len() ==> #[trigger] backward_step_fits(
            ws,
            bs,
            a0,
            tgt,
            net.learning_rate as int,
            t,
        ))
}

/// Whether the step chain takes step `p` of a run over the examples in
/// sequence order, epoch after epoch.
pub open spec fn run_step(states: Seq<Network>, ins: Seq<Vec<i64>>, tgts: Seq<Vec<i64>>, p: int) -> bool {
    sgd_step(
        states[p],
        states[p + 1],
        ins[p % ins.len() as int],
        tgts[p % ins.len() as int],
    )
}

/// A run that stopped: a prefix of stochastic-gradient steps from the
/// starting network, then an example whose step leaves the scalar range.
pub open spec fn failed_run(
    states: Seq<Network>,
    ins: Seq<Vec<i64>>,
    tgts: Seq<Vec<i64>>,
    start: Network,
    m: int,
) -> bool {
    &&& states.len() >= 1
    &&& states[0] == start
    &&& (forall|p: int| 0 <= p < states.len() - 1 ==> #[trigger] run_step(states, ins, tgts, p))
    &&& 0 <= m < ins.len()
    &&& !training_step_fits(states[states.len() - 1], ins[m]@, tgts[m]@)
}

/// Whether every training example has the width of the first layer, and
/// every target the width of the last.
pub open spec fn examples_shaped(sizes: Seq<usize>, ins: Seq<Vec<i64>>, tgts: Seq<Vec<i64>>) -> bool {
    &&& (forall|k: int| 0 <= k < ins.len() ==> (#[trigger] ins[k]@.len()) == sizes[0])
    &&& (forall|k: int| 0 <= k < tgts.len() ==> (#[trigger] tgts[k]@.len()) == sizes[sizes.len() - 1])
}

/// A fresh vector with the same scalars.
fn copy_vec(v: &Vec<i64>) -> (r: Vec<i64>)
    ensures
        r@ == v@,
{
    let n: usize = v.len();
    let mut r: Vec<i64> = Vec::new();
    let mut t: usize = 0;
    while t < n
        invariant
            n == v@.len(),
            t <= n,
            r@.len() == t,
            forall|u: int| 0 <= u < t ==> #[trigger] r@[u] == v@[u],
        decreases n - t,
    {
        let x: i64 = v[t];
        r.push(x);
        t += 1;
    }
    proof {
        assert(r@ =~= v@);
    }
    r
}

/// Entrywise difference of two equally long vectors, or the overflow error.
fn sub_vec(a: &Vec<i64>, b: &Vec<i64>) -> (r: Result<Vec<i64>, MathError>)
    requires
        a@.len() == b@.len(),
    ensures
        r matches Ok(v) ==> v@.len() == a@.len() && (forall|i: int|
            0 <= i < a@.len() ==> (#[trigger] v@[i]) as int == (a@[i] as int) - (b@[i] as int)),
        r is Err ==> r == Err::<Vec<i64>, MathError>(MathError::Overflow),
        (forall|i: int|
            0 <= i < a@.len() ==> in_i64((a@[i] as int) - (b@[i] as int))) ==> r is Ok,
{
    let n: usize = a.len();
    let mut v: Vec<i64> = Vec::new();
    let mut t: usize = 0;
    while t < n
        invariant
            n == a@.len(),
            a@.len() == b@.len(),
            t <= n,
            v@.len() == t,
            forall|u: int| 0 <= u < t ==> (#[trigger] v@[u]) as int == (a@[u] as int) - (b@[u] as int),
        decreases n - t,
    {
        let d: i128 = (a[t] as i128) - (b[t] as i128);
        if d > (i64::MAX as i128) || d < (i64::MIN as i128) {
            proof {
                assert(!in_i64((a@[t as int] as int) - (b@[t as int] as int)));
            }
            return Err(MathError::Overflow);
        }
        v.push(d as i64);
        t += 1;
    }
    Ok(v)
}

/// The unscaled gradient of one layer: the error damped entrywise by the
/// sigmoid derivative of the layer's activation.  The damping factor is at
/// most a quarter, so the scaled product always fits and this never fails.
fn damped_vec(e: &Vec<i64>, act: &Matrix) -> (g: Vec<i64>)
    requires
        act.wf(),
        act.cols == 1,
        e@.len() == act.rows,
        forall|i: int| 0 <= i < act.rows ==> 0 <= #[trigger] act.entry(i, 0) <= SCALE,
    ensures
        g@.len() == e@.len(),
        forall|i: int|
            0 <= i < g@.len() ==> (#[trigger] g@[i]) as int == scale_div(
                (e@[i] as int) * sigmoid_deriv_spec(act.entry(i, 0)),
            ),
{
    let n: usize = e.len();
    let mut g: Vec<i64> = Vec::new();
    let mut t: usize = 0;
    while t < n
        invariant
            act.wf(),
            act.cols == 1,
            e@.len() == act.rows,
            forall|i: int| 0 <= i < act.rows ==> 0 <= #[trigger] act.entry(i, 0) <= SCALE,
            n == e@.len(),
            t <= n,
            g@.len() == t,
            forall|u: int|
                0 <= u < t ==> (#[trigger] g@[u]) as int == scale_div(
                    (e@[u] as int) * sigmoid_deriv_spec(act.entry(u, 0)),
                ),
        decreases n - t,
    {
        let a: i64 = act.at(t, 0);
        proof {
            assert(0 <= act.entry(t as int, 0) <= SCALE);
        }
        let d: i64 = Activation::sigmoid_derivative(a);
        let p: i128 = mul_wide(e[t], d);
        proof {
            crate::fixed::lemma_mul_magnitude(
                e@[t as int] as int,
                d as int,
                0x8000000000000000,
                0x4000,
            );
            crate::fixed::lemma_scale_div_in_range(p as int);
        }
        match scale_down_wide(p) {
            Some(v) => {
                g.push(v);
            },
            None => {
                proof {
                    assert(false);
                }
            },
        }
        t += 1;
    }
    g
}

/// A gradient column scaled entrywise by the learning rate, or the overflow
/// error.
fn lr_scaled_vec(g: &Vec<i64>, lr: i64) -> (r: Result<Vec<i64>, MathError>)
    ensures
        r matches Ok(v) ==> v@.len() == g@.len() && (forall|i: int|
            0 <= i < g@.len() ==> (#[trigger] v@[i]) as int == scale_div(
                (g@[i] as int) * (lr as int),
            )),
        r is Err ==> r == Err::<Vec<i64>, MathError>(MathError::Overflow),
        (forall|i: int|
            0 <= i < g@.len() ==> in_i64(scale_div((g@[i] as int) * (lr as int)))) ==> r is Ok,
{
    let n: usize = g.len();
    let mut v: Vec<i64> = Vec::new();
    let mut t: usize = 0;
    while t < n
        invariant
            n == g@.len(),
            t <= n,
            v@.len() == t,
            forall|u: int|
                0 <= u < t ==> (#[trigger] v@[u]) as int == scale_div(
                    (g@[u] as int) * (lr as int),
                ),
        decreases n - t,
    {
        let p: i128 = mul_wide(g[t], lr);
        proof {
            crate::fixed::lemma_i64_mul_in_i128(g@[t as int] as int, lr as int);
        }
        match scale_down_wide(p) {
            Some(x) => {
                v.push(x);
            },
            None => {
                proof {
                    assert(!in_i64(scale_div((g@[t as int] as int) * (lr as int))));
                }
                return Err(MathError::Overflow);
            },
        }
        t += 1;
    }
    Ok(v)
}

/// The error column for the previous layer: the transposed weights applied
/// to the unscaled gradient and brought back to scale, or the overflow
/// error when a partial sum leaves the scalar range.
fn back_error_vec(w: &Matrix, g: &Vec<i64>) -> (r: Result<Vec<i64>, MathError>)
    requires
        w.wf(),
        g@.len() == w.rows,
    ensures
        r matches Ok(v) ==> v@.len() == w.cols && (forall|j: int|
            0 <= j < w.cols ==> (#[trigger] v@[j]) as int == scale_div(
                col_dot_prefix(*w, ints_of(g@), j, w.rows as int),
            )) && (forall|j: int, k: int|
            0 <= j < w.cols && 0 <= k <= w.rows ==> in_i64(
                #[trigger] col_dot_prefix(*w, ints_of(g@), j, k),
            )),
        r is Err ==> r == Err::<Vec<i64>, MathError>(MathError::Overflow),
        (forall|j: int, k: int|
            0 <= j < w.cols && 0 <= k <= w.rows ==> in_i64(
                #[trigger] col_dot_prefix(*w, ints_of(g@), j, k),
            )) ==> r is Ok,
{
    let cols: usize = w.cols;
    let rows: usize = w.rows;
    let mut v: Vec<i64> = Vec::new();
    let mut j: usize = 0;
    while j < cols
        invariant
            w.wf(),
            g@.len() == w.rows,
            cols == w.cols,
            rows == w.rows,
            j <= cols,
            v@.len() == j,
            forall|u: int|
                0 <= u < j ==> (#[trigger] v@[u]) as int == scale_div(
                    col_dot_prefix(*w, ints_of(g@), u, w.rows as int),
                ),
            forall|u: int, k2: int|
                0 <= u < j && 0 <= k2 <= w.rows ==> in_i64(
                    #[trigger] col_dot_prefix(*w, ints_of(g@), u, k2),
                ),
        decreases cols - j,
    {
        let mut acc: i128 = 0;
        let mut k: usize = 0;
        while k < rows
            invariant
                w.wf(),
                g@.len() == w.rows,
                rows == w.rows,
                j < w.cols,
                k <= rows,
                acc == col_dot_prefix(*w, ints_of(g@), j as int, k as int),
                forall|k2: int|
                    0 <= k2 <= k ==> in_i64(
                        #[trigger] col_dot_prefix(*w, ints_of(g@), j as int, k2),
                    ),
                forall|u: int, k2: int|
                    0 <= u < j && 0 <= k2 <= w.rows ==> in_i64(
                        #[trigger] col_dot_prefix(*w, ints_of(g@), u, k2),
                    ),
            decreases rows - k,
        {
            let p: i128 = mul_wide(w.at(k, j), g[k]);
            proof {
                crate::fixed::lemma_i64_mul_in_i128(w.val(k as int, j as int) as int, g@[k as int] as int);
                assert(ints_of(g@)[k as int] == g@[k as int] as int);
            }
            let acc2: i128 = acc + p;
            if acc2 > (i64::MAX as i128) || acc2 < (i64::MIN as i128) {
                proof {
                    assert(col_dot_prefix(*w, ints_of(g@), j as int, k as int + 1) == acc
                        + (w.val(k as int, j as int) as int) * (g@[k as int] as int));
                    assert(!in_i64(col_dot_prefix(*w, ints_of(g@), j as int, k as int + 1)));
                }
                return Err(MathError::Overflow);
            }
            acc = acc2;
            k += 1;
        }
        let x: i64 = scale_down(acc as i64);
        v.push(x);
        j += 1;
    }
    Ok(v)
}

/// The weight matrix after one outer-product accumulation: each entry grows
/// by the scaled product of the row's scaled gradient and the column's
/// input-side activation.
fn updated_weight(w: &Matrix, gs: &Vec<i64>, a_in: &Matrix) -> (r: Result<Matrix, MathError>)
    requires
        w.wf(),
        a_in.wf(),
        a_in.cols == 1,
        gs@.len() == w.rows,
        a_in.rows == w.cols,
    ensures
        r matches Ok(m) ==> m.wf() && m.rows == w.rows && m.cols == w.cols && (forall|i: int, j: int|
            0 <= i < w.rows && 0 <= j < w.cols ==> #[trigger] m.entry(i, j) == w.entry(i, j)
                + scale_div((gs@[i] as int) * a_in.entry(j, 0))) && (forall|i: int, j: int|
            #![trigger gs@[i], a_in.entry(j, 0)]
            0 <= i < w.rows && 0 <= j < w.cols ==> in_i64(
                scale_div((gs@[i] as int) * a_in.entry(j, 0)),
            )),
        r is Err ==> r == Err::<Matrix, MathError>(MathError::Overflow),
        ((forall|i: int, j: int|
            #![trigger gs@[i], a_in.entry(j, 0)]
            0 <= i < w.rows && 0 <= j < w.cols ==> in_i64(
                scale_div((gs@[i] as int) * a_in.entry(j, 0)),
            )) && (forall|i: int, j: int|
            0 <= i < w.rows && 0 <= j < w.cols ==> in_i64(
                (#[trigger] w.entry(i, j)) + scale_div((gs@[i] as int) * a_in.entry(j, 0)),
            ))) ==> r is Ok,
{
    let n: usize = w.data.len();
    let mut data: Vec<i64> = Vec::new();
    let mut c: usize = 0;
    while c < n
        invariant
            w.wf(),
            a_in.wf(),
            a_in.cols == 1,
            gs@.len() == w.rows,
            a_in.rows == w.cols,
            n == w.data@.len(),
            c <= n,
            data@.len() == c,
            forall|i2: int, j2: int|
                0 <= i2 < w.rows && 0 <= j2 < w.cols && i2 * (w.cols as int) + j2 < c
                    ==> data@[i2 * (w.cols as int) + j2] as int == #[trigger] w.entry(i2, j2)
                    + scale_div((gs@[i2] as int) * a_in.entry(j2, 0)),
            forall|i2: int, j2: int|
                #![trigger gs@[i2], a_in.entry(j2, 0)]
                0 <= i2 < w.rows && 0 <= j2 < w.cols && i2 * (w.cols as int) + j2 < c ==> in_i64(
                    scale_div((gs@[i2] as int) * a_in.entry(j2, 0)),
                ),
        decreases n - c,
    {
        proof {
            if w.cols == 0 {
                crate::fixed::lemma_mul_zero(w.rows as int, w.cols as int);
            }
            lemma_flat_decompose(c as int, w.rows as int, w.cols as int);
        }
        let i: usize = c / w.cols;
        let j: usize = c % w.cols;
        let p: i128 = mul_wide(gs[i], a_in.at(j, 0));
        proof {
            crate::fixed::lemma_i64_mul_in_i128(gs@[i as int] as int, a_in.val(j as int, 0) as int);
        }
        let delta: i64 = match scale_down_wide(p) {
            Some(d) => d,
            None => {
                proof {
                    assert(w.entry(i as int, j as int) == w.data@[c as int] as int);
                    assert(!in_i64(scale_div(
                        (gs@[i as int] as int) * a_in.entry(j as int, 0),
                    )));
                }
                return Err(MathError::Overflow);
            },
        };
        let base: i64 = w.data[c];
        let sum: i128 = (base as i128) + (delta as i128);
        if sum > (i64::MAX as i128) || sum < (i64::MIN as i128) {
            proof {
                assert(w.entry(i as int, j as int) == base as int);
                assert(!in_i64(w.entry(i as int, j as int) + scale_div(
                    (gs@[i as int] as int) * a_in.entry(j as int, 0),
                )));
            }
            return Err(MathError::Overflow);
        }
        data.push(sum as i64);
        c += 1;
        proof {
            assert forall|i2: int, j2: int|
                0 <= i2 < w.rows && 0 <= j2 < w.cols && i2 * (w.cols as int) + j2
                    < c implies data@[i2 * (w.cols as int) + j2] as int == #[trigger] w.entry(
                i2,
                j2,
            ) + scale_div((gs@[i2] as int) * a_in.entry(j2, 0)) by {
                lemma_flat_index(i2, j2, w.rows as int, w.cols as int);
                crate::fixed::lemma_flat_recompose(i2, j2, w.cols as int);
            }
            assert forall|i2: int, j2: int|
                #![trigger gs@[i2], a_in.entry(j2, 0)]
                0 <= i2 < w.rows && 0 <= j2 < w.cols && i2 * (w.cols as int) + j2
                    < c implies in_i64(scale_div((gs@[i2] as int) * a_in.entry(j2, 0))) by {
                lemma_flat_index(i2, j2, w.rows as int, w.cols as int);
                crate::fixed::lemma_flat_recompose(i2, j2, w.cols as int);
            }
        }
    }
    let m = Matrix { rows: w.rows, cols: w.cols, data };
    proof {
        assert forall|i: int, j: int|
            0 <= i < w.rows && 0 <= j < w.cols implies #[trigger] m.entry(i, j) == w.entry(i, j)
            + scale_div((gs@[i] as int) * a_in.entry(j, 0)) by {
            lemma_flat_index(i, j, w.rows as int, w.cols as int);
        }
        assert forall|i: int, j: int|
            #![trigger gs@[i], a_in.entry(j, 0)]
            0 <= i < w.rows && 0 <= j < w.cols implies in_i64(
            scale_div((gs@[i] as int) * a_in.entry(j, 0)),
        ) by {
            lemma_flat_index(i, j, w.rows as int, w.cols as int);
        }
    }
    Ok(m)
}

/// The bias column after one step: each entry grows by the row's scaled
/// gradient.
fn updated_bias(b: &Matrix, gs: &Vec<i64>) -> (r: Result<Matrix, MathError>)
    requires
        b.wf(),
        b.cols == 1,
        gs@.len() == b.rows,
    ensures
        r matches Ok(m) ==> m.wf() && m.rows == b.rows && m.cols == 1 && (forall|i: int|
            0 <= i < b.rows ==> #[trigger] m.entry(i, 0) == b.entry(i, 0) + gs@[i]),
        r is Err ==> r == Err::<Matrix, MathError>(MathError::Overflow),
        (forall|i: int|
            0 <= i < b.rows ==> in_i64(b.entry(i, 0) + ((#[trigger] gs@[i]) as int))) ==> r is Ok,
{
    let n: usize = b.data.len();
    proof {
        crate::fixed::lemma_mul_one(b.rows as int);
    }
    let mut data: Vec<i64> = Vec::new();
    let mut t: usize = 0;
    while t < n
        invariant
            b.wf(),
            b.cols == 1,
            gs@.len() == b.rows,
            n == b.data@.len(),
            n == b.rows,
            t <= n,
            data@.len() == t,
            forall|u: int|
                0 <= u < t ==> (#[trigger] data@[u]) as int == (b.data@[u] as int) + (gs@[u] as int),
        decreases n - t,
    {
        let sum: i128 = (b.data[t] as i128) + (gs[t] as i128);
        if sum > (i64::MAX as i128) || sum < (i64::MIN as i128) {
            proof {
                crate::fixed::lemma_mul_one(t as int);
                assert(b.entry(t as int, 0) == b.data@[t as int] as int);
                assert(!in_i64(b.entry(t as int, 0) + (gs@[t as int] as int)));
            }
            return Err(MathError::Overflow);
        }
        data.push(sum as i64);
        t += 1;
    }
    let m = Matrix { rows: b.rows, cols: 1, data };
    proof {
        crate::fixed::lemma_mul_one(b.rows as int);
        assert forall|i: int| 0 <= i < b.rows implies #[trigger] m.entry(i, 0) == b.entry(i, 0)
            + gs@[i] by {
            crate::fixed::lemma_mul_one(i);
            assert(m.val(i, 0) == m.data@[i]);
            assert(b.val(i, 0) == b.data@[i]);
        }
    }
    Ok(m)
}

/// One stochastic-gradient step as a relation between the network before
/// and after it: the forward chain is retained in the activations, every
/// weight grows by the scaled-gradient outer product, every bias by the
/// scaled gradient, and the configuration is untouched.
pub open spec fn sgd_step(pre: Network, post: Network, input: Vec<i64>, target: Vec<i64>) -> bool {
    let ws = pre.weights@;
    let bs = pre.biases@;
    let acts = post.layer_activations@;
    let tgt = ints_of(target@);
    let lr = pre.learning_rate as int;
    &&& post.layer_sizes@ == pre.layer_sizes@
    &&& post.learning_rate == pre.learning_rate
    &&& post.weights@.len() == ws.len()
    &&& post.biases@.len() == bs.len()
    &&& acts.len() == pre.layer_sizes@.len()
    &&& column(acts[0]) == ints_of(input@)
    &&& (forall|t: int|
        0 <= t < ws.len() ==> column(#[trigger] acts[t + 1]) == layer_out(
            ws[t],
            bs[t],
            column(acts[t]),
        ))
    &&& (forall|t: int, i: int, j: int|
        0 <= t < ws.len() && 0 <= i < ws[t].rows && 0 <= j < ws[t].cols
            ==> #[trigger] post.weights@[t].entry(i, j) == ws[t].entry(i, j) + scale_div(
            scaled_gradient_at(ws, acts, tgt, lr, t, i) * column(acts[t])[j],
        ))
    &&& (forall|t: int, i: int|
        0 <= t < bs.len() && 0 <= i < bs[t].rows ==> #[trigger] post.biases@[t].entry(i, 0)
            == bs[t].entry(i, 0) + scaled_gradient_at(ws, acts, tgt, lr, t, i))
}

/// Whether the state chain takes the step for example `k` of epoch `e`.
pub open spec fn step_taken(
    states: Seq<Network>,
    ins: Seq<Vec<i64>>,
    tgts: Seq<Vec<i64>>,
    e: int,
    k: int,
) -> bool {
    sgd_step(states[e * ins.len() + k], states[e * ins.len() + k + 1], ins[k], tgts[k])
}

impl Network {
    /// One stochastic-gradient step on a single example: a forward pass,
    /// then backpropagation from the output error, right to left.  Each
    /// transition's weights grow by the outer product of the
    /// learning-rate-scaled gradient with the input-side activation, each
    /// bias by that scaled gradient, and the error handed further back goes
    /// through the transition's pre-update weights.  The step succeeds
    /// exactly when every value it computes stays inside the scalar range
    /// (`training_step_fits`).
    #[verifier::rlimit(60)]
    pub fn train_example(&mut self, input: &Vec<i64>, target: &Vec<i64>) -> (r: Result<
        (),
        MathError,
    >)
        requires
            old(self).wf(),
            input@.len() == old(self).layer_sizes@[0],
            target@.len() == old(self).layer_sizes@[old(self).layer_sizes@.len() - 1],
        ensures
            final(self).wf(),
            final(self).layer_sizes@ == old(self).layer_sizes@,
            final(self).learning_rate == old(self).learning_rate,
            r is Err ==> r == Err::<(), MathError>(MathError::Overflow),
            r is Ok ==> sgd_step(*old(self), *final(self), *input, *target),
            training_step_fits(*old(self), input@, target@) <==> r is Ok,
    {
        let inp = copy_vec(input);
        let out = match self.feed_forward(inp) {
            Ok(o) => o,
            Err(_) => {
                proof {
                    if training_step_fits(*old(self), input@, target@) {
                        assert(ints_of(inp@) == ints_of(input@));
                        assert(false);
                    }
                }
                return Err(MathError::Overflow);
            },
        };
        let ghost ws0 = old(self).weights@;
        let ghost bs0 = old(self).biases@;
        let ghost acts = self.layer_activations@;
        let ghost tgt = ints_of(target@);
        let ghost lr_g = old(self).learning_rate as int;
        let ghost a0cl = ints_of(input@);
        let t_count: usize = self.weights.len();
        proof {
            assert(ints_of(inp@) == a0cl);
            assert forall|u: int|
                0 <= u < acts.len() implies #[trigger] column(acts[u]) == chain_col(
                ws0,
                bs0,
                a0cl,
                u,
            ) by {
                lemma_acts_are_chain(ws0, bs0, acts, a0cl, u);
            }
            assert forall|t2: int|
                0 <= t2 < ws0.len() implies #[trigger] err_at(ws0, acts, tgt, t2) == err_col(
                ws0,
                bs0,
                a0cl,
                tgt,
                t2,
            ) by {
                lemma_err_col(ws0, bs0, acts, a0cl, tgt, t2);
            }
        }
        let mut err = match sub_vec(target, &out) {
            Ok(e) => e,
            Err(_) => {
                proof {
                    if training_step_fits(*old(self), input@, target@) {
                        assert forall|i: int|
                            0 <= i < target@.len() implies in_i64(
                            (target@[i] as int) - (out@[i] as int),
                        ) by {
                            assert(in_i64(tgt[i] - chain_col(ws0, bs0, a0cl, ws0.len() as int)[i]));
                            assert(ints_of(out@)[i] == column(acts[acts.len() - 1])[i]);
                            assert(column(acts[acts.len() - 1]) == chain_col(
                                ws0,
                                bs0,
                                a0cl,
                                ws0.len() as int,
                            ));
                        }
                        assert(false);
                    }
                }
                return Err(MathError::Overflow);
            },
        };
        proof {
            assert(ints_of(err@) =~= err_at(ws0, acts, tgt, t_count - 1)) by {
                assert forall|i: int| 0 <= i < tgt.len() implies ints_of(err@)[i] == err_at(
                    ws0,
                    acts,
                    tgt,
                    t_count - 1,
                )[i] by {
                    assert(ints_of(out@)[i] == column(acts[acts.len() - 1])[i]);
                }
            }
            assert(chain_fits(ws0, bs0, a0cl, 0));
            assert forall|i: int|
                0 <= i < tgt.len() implies in_i64(
                (#[trigger] tgt[i]) - chain_col(ws0, bs0, a0cl, ws0.len() as int)[i],
            ) by {
                assert((err@[i]) as int == (target@[i] as int) - (out@[i] as int));
                assert(ints_of(out@)[i] == column(acts[acts.len() - 1])[i]);
                assert(column(acts[acts.len() - 1]) == chain_col(ws0, bs0, a0cl, ws0.len() as int));
            }
        }
        let mut t: usize = t_count;
        while t > 0
            invariant
                old(self).wf(),
                self.layer_sizes@ == old(self).layer_sizes@,
                self.learning_rate == old(self).learning_rate,
                self.layer_activations@ == acts,
                ws0 == old(self).weights@,
                bs0 == old(self).biases@,
                tgt == ints_of(target@),
                lr_g == old(self).learning_rate as int,
                target@.len() == old(self).layer_sizes@[old(self).layer_sizes@.len() - 1],
                self.wf(),
                t <= t_count,
                t_count == ws0.len(),
                acts.len() == old(self).layer_sizes@.len(),
                forall|u: int|
                    0 <= u < acts.len() ==> (#[trigger] acts[u]).wf() && acts[u].cols == 1
                        && acts[u].rows == old(self).layer_sizes@[u],
                forall|u: int, i: int|
                    1 <= u < acts.len() && 0 <= i < acts[u].rows ==> 0 < #[trigger] acts[u].entry(
                        i,
                        0,
                    ) < SCALE,
                forall|u: int| 0 <= u < t ==> #[trigger] self.weights@[u] == ws0[u],
                forall|u: int| 0 <= u < t ==> #[trigger] self.biases@[u] == bs0[u],
                forall|u: int, i: int, j: int|
                    t <= u < t_count && 0 <= i < ws0[u].rows && 0 <= j < ws0[u].cols
                        ==> #[trigger] self.weights@[u].entry(i, j) == ws0[u].entry(i, j)
                        + scale_div(scaled_gradient_at(ws0, acts, tgt, lr_g, u, i) * column(
                        acts[u],
                    )[j]),
                forall|u: int, i: int|
                    t <= u < t_count && 0 <= i < bs0[u].rows
                        ==> #[trigger] self.biases@[u].entry(i, 0) == bs0[u].entry(i, 0)
                        + scaled_gradient_at(ws0, acts, tgt, lr_g, u, i),
                t > 0 ==> err@.len() == ws0[t - 1].rows && ints_of(err@) == err_at(
                    ws0,
                    acts,
                    tgt,
                    t - 1,
                ),
                a0cl == ints_of(input@),
                input@.len() == old(self).layer_sizes@[0],
                forall|u: int|
                    0 <= u < acts.len() ==> #[trigger] column(acts[u]) == chain_col(
                        ws0,
                        bs0,
                        a0cl,
                        u,
                    ),
                forall|t2: int|
                    0 <= t2 < t_count ==> #[trigger] err_at(ws0, acts, tgt, t2) == err_col(
                        ws0,
                        bs0,
                        a0cl,
                        tgt,
                        t2,
                    ),
                chain_fits(ws0, bs0, a0cl, 0),
                forall|i: int|
                    0 <= i < tgt.len() ==> in_i64(
                        (#[trigger] tgt[i]) - chain_col(ws0, bs0, a0cl, ws0.len() as int)[i],
                    ),
                forall|u: int|
                    t <= u < t_count ==> #[trigger] backward_step_fits(
                        ws0,
                        bs0,
                        a0cl,
                        tgt,
                        lr_g,
                        u,
                    ),
            decreases t,
        {
            let ti = t - 1;
            let g = damped_vec(&err, &self.layer_activations[t]);
            proof {
                assert(ints_of(g@) =~= damped(err_at(ws0, acts, tgt, ti as int), column(
                    acts[ti + 1],
                ))) by {
                    assert forall|i: int| 0 <= i < g@.len() implies ints_of(g@)[i] == damped(
                        err_at(ws0, acts, tgt, ti as int),
                        column(acts[ti + 1]),
                    )[i] by {
                        assert((g@[i]) as int == scale_div(
                            (err@[i] as int) * sigmoid_deriv_spec(acts[t as int].entry(i, 0)),
                        ));
                        assert(err_at(ws0, acts, tgt, ti as int)[i] == err@[i] as int);
                        assert(column(acts[ti + 1])[i] == acts[t as int].entry(i, 0));
                    }
                }
            }
            let gs = match lr_scaled_vec(&g, self.learning_rate) {
                Ok(v) => v,
                Err(_) => {
                    proof {
                        if training_step_fits(*old(self), input@, target@) {
                            assert(backward_step_fits(ws0, bs0, a0cl, tgt, lr_g, ti as int));
                            assert(err_at(ws0, acts, tgt, ti as int) == err_col(
                                ws0,
                                bs0,
                                a0cl,
                                tgt,
                                ti as int,
                            ));
                            assert(column(acts[ti + 1]) == chain_col(ws0, bs0, a0cl, ti + 1));
                            assert forall|i: int|
                                0 <= i < g@.len() implies in_i64(
                                scale_div((g@[i] as int) * (lr_g)),
                            ) by {
                                assert(in_i64(lr_scaled(
                                    damped(
                                        err_col(ws0, bs0, a0cl, tgt, ti as int),
                                        chain_col(ws0, bs0, a0cl, ti + 1),
                                    ),
                                    lr_g,
                                )[i]));
                                assert(ints_of(g@)[i] == g@[i] as int);
                            }
                            assert(false);
                        }
                    }
                    return Err(MathError::Overflow);
                },
            };
            proof {
                assert(ints_of(gs@) =~= lr_scaled(ints_of(g@), lr_g));
                assert forall|i: int| 0 <= i < gs@.len() implies (gs@[i]) as int
                    == scaled_gradient_at(ws0, acts, tgt, lr_g, ti as int, i) by {
                    assert(lr_scaled(ints_of(g@), lr_g)[i] == lr_scaled(
                        damped(err_at(ws0, acts, tgt, ti as int), column(acts[ti + 1])),
                        lr_g,
                    )[i]);
                }
            }
            let next_err = match back_error_vec(&self.weights[ti], &g) {
                Ok(v) => v,
                Err(_) => {
                    proof {
                        if training_step_fits(*old(self), input@, target@) {
                            assert(backward_step_fits(ws0, bs0, a0cl, tgt, lr_g, ti as int));
                            assert(err_at(ws0, acts, tgt, ti as int) == err_col(
                                ws0,
                                bs0,
                                a0cl,
                                tgt,
                                ti as int,
                            ));
                            assert(column(acts[ti + 1]) == chain_col(ws0, bs0, a0cl, ti + 1));
                            assert(ints_of(g@) == damped(
                                err_col(ws0, bs0, a0cl, tgt, ti as int),
                                chain_col(ws0, bs0, a0cl, ti + 1),
                            ));
                            assert(self.weights@[ti as int] == ws0[ti as int]);
                            assert forall|j: int, k: int|
                                0 <= j < self.weights@[ti as int].cols && 0 <= k
                                    <= self.weights@[ti as int].rows implies in_i64(
                                #[trigger] col_dot_prefix(
                                    self.weights@[ti as int],
                                    ints_of(g@),
                                    j,
                                    k,
                                ),
                            ) by {
                                assert(in_i64(col_dot_prefix(
                                    ws0[ti as int],
                                    damped(
                                        err_col(ws0, bs0, a0cl, tgt, ti as int),
                                        chain_col(ws0, bs0, a0cl, ti + 1),
                                    ),
                                    j,
                                    k,
                                )));
                            }
                            assert(false);
                        }
                    }
                    return Err(MathError::Overflow);
                },
            };
            let new_w = match updated_weight(&self.weights[ti], &gs, &self.layer_activations[ti]) {
                Ok(m) => m,
                Err(_) => {
                    proof {
                        if training_step_fits(*old(self), input@, target@) {
                            assert(backward_step_fits(ws0, bs0, a0cl, tgt, lr_g, ti as int));
                            assert(err_at(ws0, acts, tgt, ti as int) == err_col(
                                ws0,
                                bs0,
                                a0cl,
                                tgt,
                                ti as int,
                            ));
                            assert(column(acts[ti + 1]) == chain_col(ws0, bs0, a0cl, ti + 1));
                            assert(column(acts[ti as int]) == chain_col(ws0, bs0, a0cl, ti as int));
                            assert(self.weights@[ti as int] == ws0[ti as int]);
                            assert forall|i2: int, j2: int|
                                #![trigger gs@[i2], self.layer_activations@[ti as int].entry(j2, 0)]
                                0 <= i2 < self.weights@[ti as int].rows && 0 <= j2
                                    < self.weights@[ti as int].cols implies in_i64(
                                scale_div(
                                    (gs@[i2] as int) * self.layer_activations@[ti as int].entry(
                                        j2,
                                        0,
                                    ),
                                ),
                            ) && in_i64(
                                self.weights@[ti as int].entry(i2, j2) + scale_div(
                                    (gs@[i2] as int) * self.layer_activations@[ti as int].entry(
                                        j2,
                                        0,
                                    ),
                                ),
                            ) by {
                                assert(ws0[ti as int].entry(i2, j2) == self.weights@[
                                    ti as int
                                ].entry(i2, j2));
                                assert((gs@[i2]) as int == scaled_gradient_at(
                                    ws0,
                                    acts,
                                    tgt,
                                    lr_g,
                                    ti as int,
                                    i2,
                                ));
                                assert((gs@[i2]) as int == lr_scaled(
                                    damped(
                                        err_col(ws0, bs0, a0cl, tgt, ti as int),
                                        chain_col(ws0, bs0, a0cl, ti + 1),
                                    ),
                                    lr_g,
                                )[i2]);
                                assert(self.layer_activations@[ti as int].entry(j2, 0) == column(
                                    acts[ti as int],
                                )[j2]);
                                assert(chain_col(ws0, bs0, a0cl, ti as int)[j2] == column(
                                    acts[ti as int],
                                )[j2]);
                            }
                            assert forall|i2: int, j2: int|
                                0 <= i2 < self.weights@[ti as int].rows && 0 <= j2
                                    < self.weights@[ti as int].cols implies in_i64(
                                (#[trigger] self.weights@[ti as int].entry(i2, j2)) + scale_div(
                                    (gs@[i2] as int) * self.layer_activations@[ti as int].entry(
                                        j2,
                                        0,
                                    ),
                                ),
                            ) by {
                                assert(in_i64(scale_div(
                                    (gs@[i2] as int) * self.layer_activations@[ti as int].entry(
                                        j2,
                                        0,
                                    ),
                                )) && in_i64(
                                    self.weights@[ti as int].entry(i2, j2) + scale_div(
                                        (gs@[i2] as int) * self.layer_activations@[
                                            ti as int
                                        ].entry(j2, 0),
                                    ),
                                ));
                            }
                            assert(false);
                        }
                    }
                    return Err(MathError::Overflow);
                },
            };
            let new_b = match updated_bias(&self.biases[ti], &gs) {
                Ok(m) => m,
                Err(_) => {
                    proof {
                        if training_step_fits(*old(self), input@, target@) {
                            assert(backward_step_fits(ws0, bs0, a0cl, tgt, lr_g, ti as int));
                            assert(err_at(ws0, acts, tgt, ti as int) == err_col(
                                ws0,
                                bs0,
                                a0cl,
                                tgt,
                                ti as int,
                            ));
                            assert(column(acts[ti + 1]) == chain_col(ws0, bs0, a0cl, ti + 1));
                            assert(self.biases@[ti as int] == bs0[ti as int]);
                            assert forall|i2: int|
                                0 <= i2 < self.biases@[ti as int].rows implies in_i64(
                                self.biases@[ti as int].entry(i2, 0) + ((#[trigger] gs@[i2]) as int),
                            ) by {
                                assert((gs@[i2]) as int == lr_scaled(
                                    damped(
                                        err_col(ws0, bs0, a0cl, tgt, ti as int),
                                        chain_col(ws0, bs0, a0cl, ti + 1),
                                    ),
                                    lr_g,
                                )[i2]);
                                assert(in_i64(bs0[ti as int].entry(i2, 0) + lr_scaled(
                                    damped(
                                        err_col(ws0, bs0, a0cl, tgt, ti as int),
                                        chain_col(ws0, bs0, a0cl, ti + 1),
                                    ),
                                    lr_g,
                                )[i2]));
                            }
                            assert(false);
                        }
                    }
                    return Err(MathError::Overflow);
                },
            };
            proof {
                assert(self.weights@[ti as int] == ws0[ti as int]);
                assert(self.biases@[ti as int] == bs0[ti as int]);
                assert(err_at(ws0, acts, tgt, ti as int) == err_col(ws0, bs0, a0cl, tgt, ti as int));
                assert(column(acts[ti + 1]) == chain_col(ws0, bs0, a0cl, ti + 1));
                assert(column(acts[ti as int]) == chain_col(ws0, bs0, a0cl, ti as int));
                assert(ints_of(g@) == damped(
                    err_col(ws0, bs0, a0cl, tgt, ti as int),
                    chain_col(ws0, bs0, a0cl, ti + 1),
                ));
                let ghost gspec = damped(
                    err_col(ws0, bs0, a0cl, tgt, ti as int),
                    chain_col(ws0, bs0, a0cl, ti + 1),
                );
                let ghost gsspec = lr_scaled(gspec, lr_g);
                assert forall|i: int| 0 <= i < ws0[ti as int].rows implies in_i64(
                    #[trigger] gsspec[i],
                ) by {
                    assert((gs@[i]) as int == gsspec[i]);
                }
                assert forall|j: int, k: int|
                    0 <= j < ws0[ti as int].cols && 0 <= k <= ws0[ti as int].rows implies in_i64(
                    #[trigger] col_dot_prefix(ws0[ti as int], gspec, j, k),
                ) by {
                    assert(in_i64(col_dot_prefix(ws0[ti as int], ints_of(g@), j, k)));
                }
                assert forall|i: int, j: int|
                    0 <= i < ws0[ti as int].rows && 0 <= j < ws0[ti as int].cols implies in_i64(
                    scale_div(gsspec[i] * chain_col(ws0, bs0, a0cl, ti as int)[j]),
                ) && in_i64(
                    (#[trigger] ws0[ti as int].entry(i, j)) + scale_div(
                        gsspec[i] * chain_col(ws0, bs0, a0cl, ti as int)[j],
                    ),
                ) by {
                    assert(in_i64(scale_div(
                        (gs@[i] as int) * self.layer_activations@[ti as int].entry(j, 0),
                    )));
                    assert(new_w.entry(i, j) == ws0[ti as int].entry(i, j) + scale_div(
                        (gs@[i] as int) * self.layer_activations@[ti as int].entry(j, 0),
                    ));
                    assert(self.layer_activations@[ti as int].entry(j, 0) == chain_col(
                        ws0,
                        bs0,
                        a0cl,
                        ti as int,
                    )[j]);
                    assert((gs@[i]) as int == gsspec[i]);
                }
                assert forall|i: int| 0 <= i < bs0[ti as int].rows implies in_i64(
                    bs0[ti as int].entry(i, 0) + (#[trigger] gsspec[i]),
                ) by {
                    assert(new_b.entry(i, 0) == bs0[ti as int].entry(i, 0) + gs@[i]);
                    assert((gs@[i]) as int == gsspec[i]);
                }
                assert(backward_step_fits(ws0, bs0, a0cl, tgt, lr_g, ti as int));
            }
            self.weights.set(ti, new_w);
            self.biases.set(ti, new_b);
            err = next_err;
            t = ti;
            proof {
                assert forall|u: int| 0 <= u < t implies #[trigger] self.weights@[u] == ws0[u] by {
                }
                assert forall|u: int| 0 <= u < t implies #[trigger] self.biases@[u] == bs0[u] by {
                }
                assert forall|i: int, j: int|
                    0 <= i < ws0[t as int].rows && 0 <= j < ws0[t as int].cols
                        implies #[trigger] self.weights@[t as int].entry(i, j) == ws0[
                    t as int
                ].entry(i, j) + scale_div(
                    scaled_gradient_at(ws0, acts, tgt, lr_g, t as int, i) * column(
                        acts[t as int],
                    )[j],
                ) by {
                    assert(column(acts[t as int])[j] == acts[t as int].entry(j, 0));
                }
                if t > 0 {
                    assert(ints_of(err@) =~= err_at(ws0, acts, tgt, t - 1)) by {
                        assert(err_at(ws0, acts, tgt, t - 1) == back_error(
                            ws0[t as int],
                            damped(err_at(ws0, acts, tgt, t as int), column(acts[t + 1])),
                        ));
                        assert forall|i: int|
                            0 <= i < err@.len() implies ints_of(err@)[i] == back_error(
                            ws0[t as int],
                            ints_of(g@),
                        )[i] by {
                            assert((err@[i]) as int == scale_div(
                                col_dot_prefix(ws0[t as int], ints_of(g@), i, ws0[t as int].rows as int),
                            ));
                        }
                    }
                }
            }
        }
        proof {
            assert(training_step_fits(*old(self), input@, target@));
        }
        Ok(())
    }

    /// Trains the network on equally long sequences of examples and
    /// targets: for each of `epochs` rounds, one stochastic-gradient step
    /// per example, in sequence order.  All configuration and shape
    /// validation happens before the first step; afterwards only the
    /// machine-width overflow error can stop the run, and the network stays
    /// structurally sound.
    pub fn train(&mut self, inputs: Vec<Vec<i64>>, targets: Vec<Vec<i64>>, epochs: u32) -> (r:
        Result<(), MathError>)
        requires
            old(self).wf(),
        ensures
            final(self).wf(),
            final(self).layer_sizes@ == old(self).layer_sizes@,
            final(self).learning_rate == old(self).learning_rate,
            (inputs@.len() != targets@.len()) <==> r == Err::<(), MathError>(
                MathError::InvalidConfiguration,
            ),
            (inputs@.len() == targets@.len() && !examples_shaped(
                old(self).layer_sizes@,
                inputs@,
                targets@,
            )) ==> ((r matches Err(e) && e matches MathError::ShapeMismatch { .. })
                && final(self).weights@ == old(self).weights@ && final(self).biases@ == old(
                self,
            ).biases@),
            (inputs@.len() == targets@.len() && examples_shaped(
                old(self).layer_sizes@,
                inputs@,
                targets@,
            )) ==> (r is Ok || r == Err::<(), MathError>(MathError::Overflow)),
            (inputs@.len() == targets@.len() && examples_shaped(
                old(self).layer_sizes@,
                inputs@,
                targets@,
            ) && (epochs == 0 || inputs@.len() == 0)) ==> (r is Ok && final(self).weights@ == old(
                self,
            ).weights@ && final(self).biases@ == old(self).biases@),
            r == Err::<(), MathError>(MathError::Overflow) ==> (exists|states: Seq<Network>, m: int|
                failed_run(states, inputs@, targets@, *old(self), m)),
            r is Ok ==> (exists|states: Seq<Network>|
                {
                    &&& states.len() == (epochs as int) * inputs@.len() + 1
                    &&& states[0] == *old(self)
                    &&& states[states.len() - 1] == *final(self)
                    &&& (forall|e2: int, k2: int|
                        0 <= e2 < epochs && 0 <= k2 < inputs@.len() ==> #[trigger] step_taken(
                            states,
                            inputs@,
                            targets@,
                            e2,
                            k2,
                        ))
                }),
    {
        if inputs.len() != targets.len() {
            return Err(MathError::InvalidConfiguration);
        }
        let width: usize = self.layer_sizes[0];
        let out_width: usize = self.layer_sizes[self.layer_sizes.len() - 1];
        let count: usize = inputs.len();
        let mut k: usize = 0;
        while k < count
            invariant
                self.wf(),
                self == old(self),
                inputs@.len() == targets@.len(),
                count == inputs@.len(),
                width == self.layer_sizes@[0],
                out_width == self.layer_sizes@[self.layer_sizes@.len() - 1],
                k <= count,
                forall|u: int| 0 <= u < k ==> (#[trigger] inputs@[u]@.len()) == width,
                forall|u: int| 0 <= u < k ==> (#[trigger] targets@[u]@.len()) == out_width,
            decreases count - k,
        {
            if inputs[k].len() != width {
                return Err(MathError::ShapeMismatch {
                    left_rows: width,
                    left_cols: 1,
                    right_rows: inputs[k].len(),
                    right_cols: 1,
                });
            }
            if targets[k].len() != out_width {
                return Err(MathError::ShapeMismatch {
                    left_rows: out_width,
                    left_cols: 1,
                    right_rows: targets[k].len(),
                    right_cols: 1,
                });
            }
            k += 1;
        }
        let ghost mut states: Seq<Network> = seq![*self];
        let mut e: u32 = 0;
        while e < epochs
            invariant
                self.wf(),
                self.layer_sizes@ == old(self).layer_sizes@,
                self.learning_rate == old(self).learning_rate,
                inputs@.len() == targets@.len(),
                count == inputs@.len(),
                width == self.layer_sizes@[0],
                out_width == self.layer_sizes@[self.layer_sizes@.len() - 1],
                examples_shaped(self.layer_sizes@, inputs@, targets@),
                e <= epochs,
                count == 0 ==> self.weights@ == old(self).weights@ && self.biases@ == old(
                    self,
                ).biases@,
                e == 0 ==> self.weights@ == old(self).weights@ && self.biases@ == old(
                    self,
                ).biases@,
                states.len() == (e as int) * (count as int) + 1,
                states[0] == *old(self),
                states[states.len() - 1] == *self,
                forall|e2: int, k3: int|
                    0 <= e2 < e && 0 <= k3 < count ==> #[trigger] step_taken(
                        states,
                        inputs@,
                        targets@,
                        e2,
                        k3,
                    ),
            decreases epochs - e,
        {
            let mut k2: usize = 0;
            while k2 < count
                invariant
                    self.wf(),
                    self.layer_sizes@ == old(self).layer_sizes@,
                    self.learning_rate == old(self).learning_rate,
                    inputs@.len() == targets@.len(),
                    count == inputs@.len(),
                    width == self.layer_sizes@[0],
                    out_width == self.layer_sizes@[self.layer_sizes@.len() - 1],
                    examples_shaped(self.layer_sizes@, inputs@, targets@),
                    k2 <= count,
                    count == 0 ==> self.weights@ == old(self).weights@ && self.biases@ == old(
                        self,
                    ).biases@,
                    0 < epochs,
                    e < epochs,
                    states.len() == (e as int) * (count as int) + (k2 as int) + 1,
                    states[0] == *old(self),
                    states[states.len() - 1] == *self,
                    forall|e2: int, k3: int|
                        (0 <= e2 < e && 0 <= k3 < count) || (e2 == e && 0 <= k3 < k2)
                            ==> #[trigger] step_taken(states, inputs@, targets@, e2, k3),
                decreases count - k2,
            {
                let ghost pre = *self;
                match self.train_example(&inputs[k2], &targets[k2]) {
                    Ok(()) => {},
                    Err(_) => {
                        proof {
                            crate::fixed::lemma_mul_step(e as int, count as int);
                            assert forall|p: int|
                                0 <= p < states.len() - 1 implies #[trigger] run_step(
                                states,
                                inputs@,
                                targets@,
                                p,
                            ) by {
                                lemma_flat_decompose(p, e as int + 1, count as int);
                                let e2 = p / (count as int);
                                let k3 = p % (count as int);
                                assert(step_taken(states, inputs@, targets@, e2, k3));
                            }
                            assert(!training_step_fits(
                                pre,
                                inputs@[k2 as int]@,
                                targets@[k2 as int]@,
                            ));
                            assert(failed_run(states, inputs@, targets@, *old(self), k2 as int));
                        }
                        return Err(MathError::Overflow);
                    },
                }
                proof {
                    let ghost states0 = states;
                    states = states.push(*self);
                    assert(sgd_step(pre, *self, inputs@[k2 as int], targets@[k2 as int]));
                    assert forall|e2: int, k3: int|
                        (0 <= e2 < e && 0 <= k3 < count) || (e2 == e && 0 <= k3 < k2
                            + 1) implies #[trigger] step_taken(
                        states,
                        inputs@,
                        targets@,
                        e2,
                        k3,
                    ) by {
                        lemma_step_index(e2, k3, e as int, k2 as int, count as int);
                        if e2 == e && k3 == k2 {
                            assert(states[(e as int) * (count as int) + (k2 as int)] == pre);
                            assert(states[(e as int) * (count as int) + (k2 as int) + 1]
                                == *self);
                        } else {
                            assert(step_taken(states0, inputs@, targets@, e2, k3));
                            assert(states[e2 * (count as int) + k3] == states0[e2 * (count as int)
                                + k3]);
                            assert(states[e2 * (count as int) + k3 + 1] == states0[e2 * (count as int)
                                + k3 + 1]);
                        }
                    }
                }
                k2 += 1;
            }
            proof {
                crate::fixed::lemma_mul_step(e as int, count as int);
            }
            e += 1;
        }
        proof {
            if count == 0 {
                crate::fixed::lemma_mul_zero(epochs as int, count as int);
                assert((epochs as int) * (count as int) == (e as int) * (count as int));
            }
        }
        Ok(())
    }
}

/// Every step of the chain up to the current one has an index inside the
/// chain built so far.
proof fn lemma_step_index(e2: int, k3: int, e: int, k2: int, count: int)
    by (nonlinear_arith)
    requires
        (0 <= e2 < e && 0 <= k3 < count) || (e2 == e && 0 <= k3 <= k2),
        0 <= e,
        0 <= k2 < count,
    ensures
        0 <= e2 * count + k3,
        e2 * count + k3 + 1 <= e * count + k2 + 1,
        (e2 < e || k3 < k2) ==> e2 * count + k3 + 1 <= e * count + k2,
{
}

} // verus!
