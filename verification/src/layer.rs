//! Layers: the dense (fully connected) layer and the softmax layer.
//!
//! A layer owns its parameters and the transient caches a backward pass
//! needs. A forward call marks the caches valid; the matching backward call
//! consumes and clears them, so a backward without a fresh forward is
//! reported as `StaleCache` instead of silently reading stale values.

use crate::activation_function::{act_deriv_s, act_normal_s, ActivationFunction};
use crate::fixed::{
    copy_ints, fx_add, fx_add_s, fx_mul, fx_mul_s, fx_sub, fx_sub_s, lemma_tdiv_le,
    exp_fx_s, lemma_tdiv_scale_bound, tdiv, to_ints, zero_seq, zero_vec, EXP_UNDERFLOW, SCALE,
};
use crate::NetError;
use vstd::prelude::*;

verus! {

/// Relies on rand::random: a fresh sample from the thread-local generator,
/// used only to seed freshly constructed weights. Nothing is assumed of
/// the value returned.
pub assume_specification<T>[ rand::random::<T> ]() -> (r: T)
    where
        rand::distributions::Standard: rand::distributions::Distribution<T>,
;

/// The mathematical state of a dense layer.
#[verifier::ext_equal]
pub struct DenseModel {
    pub input_size: nat,
    pub output_size: nat,
    /// Flat weight matrix: row `i` starts at `i * input_size`.
    pub weights: Seq<int>,
    pub bias: Seq<int>,
    pub act: ActivationFunction,
    /// Cached input of the last forward call.
    pub inputs: Seq<int>,
    /// Cached activated output of the last forward call.
    pub outputs: Seq<int>,
    /// Cached pre-activation of the last forward call.
    pub cache: Seq<int>,
    pub cache_valid: bool,
}

pub open spec fn dense_wf(m: DenseModel) -> bool {
    &&& m.weights.len() == m.output_size * m.input_size
    &&& m.bias.len() == m.output_size
    &&& m.inputs.len() == m.input_size
    &&& m.outputs.len() == m.output_size
    &&& m.cache.len() == m.output_size
    &&& m.output_size * m.input_size <= usize::MAX
}

/// The result of a layer or network call, seen mathematically.
pub open spec fn res_view(r: Result<Vec<i64>, NetError>) -> Result<Seq<int>, NetError> {
    match r {
        Ok(v) => Ok(to_ints(v@)),
        Err(e) => Err(e),
    }
}

/// The first `j` terms of one output unit's weighted sum, seeded with its
/// bias; `None` once any step leaves the representable range.
pub open spec fn dot_prefix(x: Seq<int>, w: Seq<int>, off: int, b: int, j: nat) -> Option<int>
    decreases j,
{
    if j == 0 {
        Some(b)
    } else {
        match dot_prefix(x, w, off, b, (j - 1) as nat) {
            None => None,
            Some(acc) => match fx_mul_s(x[j - 1], w[off + j - 1]) {
                None => None,
                Some(p) => fx_add_s(acc, p),
            },
        }
    }
}

proof fn lemma_dot_prefix_poison(x: Seq<int>, w: Seq<int>, off: int, b: int, j1: nat, j2: nat)
    requires
        j1 <= j2,
        dot_prefix(x, w, off, b, j1) is None,
    ensures
        dot_prefix(x, w, off, b, j2) is None,
    decreases j2,
{
    if j2 > j1 {
        lemma_dot_prefix_poison(x, w, off, b, j1, (j2 - 1) as nat);
    }
}

/// Pre-activations of the first `n` output units.
pub open spec fn pre_seq(m: DenseModel, x: Seq<int>, n: nat) -> Option<Seq<int>>
    decreases n,
{
    if n == 0 {
        Some(Seq::empty())
    } else {
        match pre_seq(m, x, (n - 1) as nat) {
            None => None,
            Some(s) => match dot_prefix(
                x,
                m.weights,
                (n - 1) * m.input_size,
                m.bias[n - 1],
                m.input_size,
            ) {
                None => None,
                Some(p) => Some(s.push(p)),
            },
        }
    }
}

proof fn lemma_pre_seq_poison(m: DenseModel, x: Seq<int>, n1: nat, n2: nat)
    requires
        n1 <= n2,
        pre_seq(m, x, n1) is None,
    ensures
        pre_seq(m, x, n2) is None,
    decreases n2,
{
    if n2 > n1 {
        lemma_pre_seq_poison(m, x, n1, (n2 - 1) as nat);
    }
}

/// The activation applied to every pre-activation.
pub open spec fn act_seq(a: ActivationFunction, pre: Seq<int>) -> Seq<int> {
    pre.map_values(|p: int| act_normal_s(a, p))
}

/// What a dense forward call does: the new layer state and the result.
pub open spec fn dense_forward_full(m: DenseModel, x: Seq<int>) -> (DenseModel, Result<
    Seq<int>,
    NetError,
>) {
    if x.len() != m.input_size {
        (m, Err(NetError::ShapeMismatch))
    } else {
        match pre_seq(m, x, m.output_size) {
            None => (m, Err(NetError::FatalNumericDefect)),
            Some(pre) => {
                let out = act_seq(m.act, pre);
                (
                    DenseModel { inputs: x, outputs: out, cache: pre, cache_valid: true, ..m },
                    Ok(out),
                )
            },
        }
    }
}

/// One output unit's walk over the inputs during backward: accumulate the
/// propagated error from the pre-update weights, then step the weights.
pub open spec fn bw_inner(
    w: Seq<int>,
    res: Seq<int>,
    g: int,
    x: Seq<int>,
    lr: int,
    off: int,
    j: nat,
) -> Option<(Seq<int>, Seq<int>)>
    decreases j,
{
    if j == 0 {
        Some((w, res))
    } else {
        match bw_inner(w, res, g, x, lr, off, (j - 1) as nat) {
            None => None,
            Some(wr) => {
                let idx = off + j - 1;
                match fx_mul_s(g, wr.0[idx]) {
                    None => None,
                    Some(d) => match fx_add_s(wr.1[j - 1], d) {
                        None => None,
                        Some(racc) => match fx_mul_s(g, x[j - 1]) {
                            None => None,
                            Some(gx) => match fx_mul_s(gx, lr) {
                                None => None,
                                Some(upd) => match fx_sub_s(wr.0[idx], upd) {
                                    None => None,
                                    Some(wnew) => Some(
                                        (wr.0.update(idx, wnew), wr.1.update(j - 1, racc)),
                                    ),
                                },
                            },
                        },
                    },
                }
            },
        }
    }
}

proof fn lemma_bw_inner_poison(
    w: Seq<int>,
    res: Seq<int>,
    g: int,
    x: Seq<int>,
    lr: int,
    off: int,
    j1: nat,
    j2: nat,
)
    requires
        j1 <= j2,
        bw_inner(w, res, g, x, lr, off, j1) is None,
    ensures
        bw_inner(w, res, g, x, lr, off, j2) is None,
    decreases j2,
{
    if j2 > j1 {
        lemma_bw_inner_poison(w, res, g, x, lr, off, j1, (j2 - 1) as nat);
    }
}

/// Backward over the first `i` output units: the running bias vector,
/// weight matrix and propagated error.
pub open spec fn bw_units(m: DenseModel, e: Seq<int>, lr: int, i: nat) -> Option<
    (Seq<int>, Seq<int>, Seq<int>),
>
    decreases i,
{
    if i == 0 {
        Some((m.bias, m.weights, zero_seq(m.input_size)))
    } else {
        match bw_units(m, e, lr, (i - 1) as nat) {
            None => None,
            Some(st) => match fx_mul_s(e[i - 1], act_deriv_s(m.act, m.cache[i - 1])) {
                None => None,
                Some(g) => match fx_mul_s(g, lr) {
                    None => None,
                    Some(gl) => match fx_sub_s(st.0[i - 1], gl) {
                        None => None,
                        Some(bnew) => match bw_inner(
                            st.1,
                            st.2,
                            g,
                            m.inputs,
                            lr,
                            (i - 1) * m.input_size,
                            m.input_size,
                        ) {
                            None => None,
                            Some(wr) => Some((st.0.update(i - 1, bnew), wr.0, wr.1)),
                        },
                    },
                },
            },
        }
    }
}

proof fn lemma_bw_units_poison(m: DenseModel, e: Seq<int>, lr: int, i1: nat, i2: nat)
    requires
        i1 <= i2,
        bw_units(m, e, lr, i1) is None,
    ensures
        bw_units(m, e, lr, i2) is None,
    decreases i2,
{
    if i2 > i1 {
        lemma_bw_units_poison(m, e, lr, i1, (i2 - 1) as nat);
    }
}

/// What a dense backward call does: the new layer state and the result.
pub open spec fn dense_backward_full(m: DenseModel, e: Seq<int>, lr: int) -> (DenseModel, Result<
    Seq<int>,
    NetError,
>) {
    if e.len() != m.output_size {
        (m, Err(NetError::ShapeMismatch))
    } else if !m.cache_valid {
        (m, Err(NetError::StaleCache))
    } else {
        match bw_units(m, e, lr, m.output_size) {
            None => (m, Err(NetError::FatalNumericDefect)),
            Some(st) => (
                DenseModel { bias: st.0, weights: st.1, cache_valid: false, ..m },
                Ok(st.2),
            ),
        }
    }
}

proof fn lemma_flat_index(i: int, j: int, input_size: int, output_size: int)
    requires
        0 <= i < output_size,
        0 <= j < input_size,
    ensures
        0 <= i * input_size + j < output_size * input_size,
{
    assert(0 <= i * input_size + j < output_size * input_size) by (nonlinear_arith)
        requires
            0 <= i < output_size && 0 <= j < input_size,
    ;
}

/// A fully connected layer: `output_size` units, each a weighted sum of
/// the inputs plus a bias, passed through the owned activation.
pub struct DenseLayer {
    pub input_size: usize,
    pub output_size: usize,
    pub inputs: Vec<i64>,
    pub outputs: Vec<i64>,
    cache: Vec<i64>,
    pub weights: Vec<i64>,
    pub bias: Vec<i64>,
    activation_function: ActivationFunction,
    cache_valid: bool,
}

impl View for DenseLayer {
    type V = DenseModel;

    closed spec fn view(&self) -> DenseModel {
        DenseModel {
            input_size: self.input_size as nat,
            output_size: self.output_size as nat,
            weights: to_ints(self.weights@),
            bias: to_ints(self.bias@),
            act: self.activation_function,
            inputs: to_ints(self.inputs@),
            outputs: to_ints(self.outputs@),
            cache: to_ints(self.cache@),
            cache_valid: self.cache_valid,
        }
    }
}

impl DenseLayer {
    /// A fresh layer: weights drawn uniformly from [0, 0.001) to keep early
    /// pre-activations near zero, bias all zero, caches empty.
    pub fn new(input_size: usize, output_size: usize, activation_function: ActivationFunction) -> (r:
        DenseLayer)
        requires
            input_size * output_size <= usize::MAX,
        ensures
            dense_wf(r@),
            r@.input_size == input_size,
            r@.output_size == output_size,
            r@.act == activation_function,
            r@.bias == zero_seq(output_size as nat),
            forall|k: int| 0 <= k < r@.weights.len() ==> 0 <= #[trigger] r@.weights[k] < 1_000_000,
            r@.cache_valid == false,
    {
        proof {
            assert(output_size * input_size == input_size * output_size) by (nonlinear_arith);
        }
        let total: usize = output_size * input_size;
        let mut weights: Vec<i64> = Vec::new();
        let mut k: usize = 0;
        while k < total
            invariant
                k <= total,
                weights@.len() == k,
                forall|q: int| 0 <= q < k ==> 0 <= #[trigger] weights@[q] < 1_000_000,
            decreases total - k,
        {
            let raw: u64 = rand::random::<u64>();
            let unit: u64 = raw % 1_000_000_000;
            let w: u64 = unit / 1000;
            proof {
                vstd::arithmetic::div_mod::lemma_div_is_ordered(unit as int, 999_999_999, 1000);
                assert(999_999_999int / 1000 == 999_999);
            }
            weights.push(w as i64);
            k = k + 1;
        }
        let r = DenseLayer {
            input_size,
            output_size,
            inputs: zero_vec(input_size),
            outputs: zero_vec(output_size),
            cache: zero_vec(output_size),
            weights,
            bias: zero_vec(output_size),
            activation_function,
            cache_valid: false,
        };
        proof {
            assert(r@.bias =~= zero_seq(output_size as nat));
        }
        r
    }

    pub fn get_input_size(&self) -> (n: usize)
        ensures
            n == self@.input_size,
    {
        self.input_size
    }

    pub fn get_output_size(&self) -> (n: usize)
        ensures
            n == self@.output_size,
    {
        self.output_size
    }

    /// Weighted sums plus bias, activated; caches the input and the
    /// pre-activations for the matching backward call. Fails with
    /// `ShapeMismatch` on a wrong-length input and `FatalNumericDefect`
    /// when the arithmetic leaves the representable range; either failure
    /// leaves the layer untouched.
    pub fn forward(&mut self, inputs: &Vec<i64>) -> (result: Result<Vec<i64>, NetError>)
        requires
            dense_wf(old(self)@),
        ensures
            dense_wf(final(self)@),
            final(self)@ == dense_forward_full(old(self)@, to_ints(inputs@)).0,
            res_view(result) == dense_forward_full(old(self)@, to_ints(inputs@)).1,
    {
        let ghost m = self@;
        let ghost x = to_ints(inputs@);
        if inputs.len() != self.input_size {
            return Err(NetError::ShapeMismatch);
        }
        let mut pre: Vec<i64> = Vec::new();
        let mut out: Vec<i64> = Vec::new();
        let mut i: usize = 0;
        while i < self.output_size
            invariant
                *self == *old(self),
                m == self@,
                dense_wf(m),
                x == to_ints(inputs@),
                inputs@.len() == m.input_size,
                i <= m.output_size,
                pre@.len() == i,
                out@.len() == i,
                pre_seq(m, x, i as nat) == Some(to_ints(pre@)),
                to_ints(out@) == act_seq(m.act, to_ints(pre@)),
            decreases m.output_size - i,
        {
            let mut acc: i64 = self.bias[i];
            let mut j: usize = 0;
            while j < self.input_size
                invariant
                    *self == *old(self),
                    m == self@,
                    dense_wf(m),
                    x == to_ints(inputs@),
                    inputs@.len() == m.input_size,
                    i < m.output_size,
                    j <= m.input_size,
                    dot_prefix(
                        x,
                        m.weights,
                        (i as int) * (m.input_size as int),
                        m.bias[i as int],
                        j as nat,
                    ) == Some(acc as int),
                decreases m.input_size - j,
            {
                proof {
                    lemma_flat_index(
                        i as int,
                        j as int,
                        m.input_size as int,
                        m.output_size as int,
                    );
                }
                let idx: usize = i * self.input_size + j;
                let step = fx_mul(inputs[j], self.weights[idx]);
                let ghost off = (i as int) * (m.input_size as int);
                match step {
                    None => {
                        proof {
                            assert(dot_prefix(x, m.weights, off, m.bias[i as int], (j + 1) as nat)
                                is None);
                            lemma_dot_prefix_poison(
                                x,
                                m.weights,
                                off,
                                m.bias[i as int],
                                (j + 1) as nat,
                                m.input_size,
                            );
                            assert(pre_seq(m, x, (i + 1) as nat) is None);
                            lemma_pre_seq_poison(m, x, (i + 1) as nat, m.output_size);
                        }
                        return Err(NetError::FatalNumericDefect);
                    },
                    Some(p) => {
                        match fx_add(acc, p) {
                            None => {
                                proof {
                                    assert(dot_prefix(
                                        x,
                                        m.weights,
                                        off,
                                        m.bias[i as int],
                                        (j + 1) as nat,
                                    ) is None);
                                    lemma_dot_prefix_poison(
                                        x,
                                        m.weights,
                                        off,
                                        m.bias[i as int],
                                        (j + 1) as nat,
                                        m.input_size,
                                    );
                                    assert(pre_seq(m, x, (i + 1) as nat) is None);
                                    lemma_pre_seq_poison(m, x, (i + 1) as nat, m.output_size);
                                }
                                return Err(NetError::FatalNumericDefect);
                            },
                            Some(a2) => {
                                acc = a2;
                            },
                        }
                    },
                }
                j = j + 1;
            }
            let av = self.activation_function.normal(acc);
            let ghost pre_old = pre@;
            let ghost out_old = out@;
            pre.push(acc);
            out.push(av);
            proof {
                assert(to_ints(pre@) =~= to_ints(pre_old).push(acc as int));
                assert(to_ints(out@) =~= to_ints(out_old).push(av as int));
                assert(pre_seq(m, x, (i + 1) as nat) == Some(to_ints(pre@)));
                assert(to_ints(out@) =~= act_seq(m.act, to_ints(pre@)));
            }
            i = i + 1;
        }
        self.inputs = copy_ints(inputs);
        self.outputs = copy_ints(&out);
        self.cache = pre;
        self.cache_valid = true;
        proof {
            assert(self@ =~= dense_forward_full(m, x).0);
        }
        Ok(out)
    }

    /// One stochastic-gradient step. For each unit the gradient is the
    /// upstream error times the activation derivative at the cached
    /// pre-activation; the propagated error uses the pre-update weights.
    /// Fails with `ShapeMismatch` on a wrong-length error vector,
    /// `StaleCache` without a fresh forward call, and `FatalNumericDefect`
    /// when the arithmetic leaves the range; any failure leaves the layer's
    /// parameters untouched.
    pub fn backward(&mut self, errors: &Vec<i64>, learning_rate: i64) -> (result: Result<
        Vec<i64>,
        NetError,
    >)
        requires
            dense_wf(old(self)@),
        ensures
            dense_wf(final(self)@),
            final(self)@ == dense_backward_full(
                old(self)@,
                to_ints(errors@),
                learning_rate as int,
            ).0,
            res_view(result) == dense_backward_full(
                old(self)@,
                to_ints(errors@),
                learning_rate as int,
            ).1,
    {
        let ghost m = self@;
        let ghost ev = to_ints(errors@);
        let ghost lr = learning_rate as int;
        if errors.len() != self.output_size {
            return Err(NetError::ShapeMismatch);
        }
        if !self.cache_valid {
            return Err(NetError::StaleCache);
        }
        let mut b = copy_ints(&self.bias);
        let mut w = copy_ints(&self.weights);
        let mut res = zero_vec(self.input_size);
        let mut i: usize = 0;
        while i < self.output_size
            invariant
                *self == *old(self),
                m == self@,
                dense_wf(m),
                ev == to_ints(errors@),
                errors@.len() == m.output_size,
                lr == learning_rate as int,
                i <= m.output_size,
                m.cache_valid,
                b@.len() == m.output_size,
                w@.len() == m.weights.len(),
                res@.len() == m.input_size,
                bw_units(m, ev, lr, i as nat) == Some(
                    (to_ints(b@), to_ints(w@), to_ints(res@)),
                ),
            decreases m.output_size - i,
        {
            let g = match fx_mul(errors[i], self.activation_function.derivative(self.cache[i])) {
                Some(g) => g,
                None => {
                    proof {
                        assert(bw_units(m, ev, lr, (i + 1) as nat) is None);
                        lemma_bw_units_poison(m, ev, lr, (i + 1) as nat, m.output_size);
                    }
                    return Err(NetError::FatalNumericDefect);
                },
            };
            let gl = match fx_mul(g, learning_rate) {
                Some(gl) => gl,
                None => {
                    proof {
                        assert(bw_units(m, ev, lr, (i + 1) as nat) is None);
                        lemma_bw_units_poison(m, ev, lr, (i + 1) as nat, m.output_size);
                    }
                    return Err(NetError::FatalNumericDefect);
                },
            };
            let bnew = match fx_sub(b[i], gl) {
                Some(bnew) => bnew,
                None => {
                    proof {
                        assert(bw_units(m, ev, lr, (i + 1) as nat) is None);
                        lemma_bw_units_poison(m, ev, lr, (i + 1) as nat, m.output_size);
                    }
                    return Err(NetError::FatalNumericDefect);
                },
            };
            let ghost w_at_unit = to_ints(w@);
            let ghost res_at_unit = to_ints(res@);
            let ghost off = (i as int) * (m.input_size as int);
            let mut j: usize = 0;
            while j < self.input_size
                invariant
                    *self == *old(self),
                    m == self@,
                    dense_wf(m),
                    ev == to_ints(errors@),
                    errors@.len() == m.output_size,
                    m.cache_valid,
                    i < m.output_size,
                    j <= m.input_size,
                    lr == learning_rate as int,
                    off == (i as int) * (m.input_size as int),
                    b@.len() == m.output_size,
                    w@.len() == m.weights.len(),
                    res@.len() == m.input_size,
                    bw_units(m, ev, lr, i as nat) == Some((to_ints(b@), w_at_unit, res_at_unit)),
                    fx_mul_s(ev[i as int], act_deriv_s(m.act, m.cache[i as int])) == Some(
                        g as int,
                    ),
                    fx_mul_s(g as int, lr) == Some(gl as int),
                    fx_sub_s(to_ints(b@)[i as int], gl as int) == Some(bnew as int),
                    bw_inner(w_at_unit, res_at_unit, g as int, m.inputs, lr, off, j as nat)
                        == Some((to_ints(w@), to_ints(res@))),
                decreases m.input_size - j,
            {
                proof {
                    lemma_flat_index(
                        i as int,
                        j as int,
                        m.input_size as int,
                        m.output_size as int,
                    );
                }
                let idx: usize = i * self.input_size + j;
                let wv = w[idx];
                let d = match fx_mul(g, wv) {
                    Some(d) => d,
                    None => {
                        proof {
                            assert(bw_inner(
                                w_at_unit,
                                res_at_unit,
                                g as int,
                                m.inputs,
                                lr,
                                off,
                                (j + 1) as nat,
                            ) is None);
                            lemma_bw_inner_poison(
                                w_at_unit,
                                res_at_unit,
                                g as int,
                                m.inputs,
                                lr,
                                off,
                                (j + 1) as nat,
                                m.input_size,
                            );
                            assert(bw_units(m, ev, lr, (i + 1) as nat) is None);
                            lemma_bw_units_poison(m, ev, lr, (i + 1) as nat, m.output_size);
                        }
                        return Err(NetError::FatalNumericDefect);
                    },
                };
                let racc = match fx_add(res[j], d) {
                    Some(racc) => racc,
                    None => {
                        proof {
                            assert(bw_inner(
                                w_at_unit,
                                res_at_unit,
                                g as int,
                                m.inputs,
                                lr,
                                off,
                                (j + 1) as nat,
                            ) is None);
                            lemma_bw_inner_poison(
                                w_at_unit,
                                res_at_unit,
                                g as int,
                                m.inputs,
                                lr,
                                off,
                                (j + 1) as nat,
                                m.input_size,
                            );
                            assert(bw_units(m, ev, lr, (i + 1) as nat) is None);
                            lemma_bw_units_poison(m, ev, lr, (i + 1) as nat, m.output_size);
                        }
                        return Err(NetError::FatalNumericDefect);
                    },
                };
                let gx = match fx_mul(g, self.inputs[j]) {
                    Some(gx) => gx,
                    None => {
                        proof {
                            assert(bw_inner(
                                w_at_unit,
                                res_at_unit,
                                g as int,
                                m.inputs,
                                lr,
                                off,
                                (j + 1) as nat,
                            ) is None);
                            lemma_bw_inner_poison(
                                w_at_unit,
                                res_at_unit,
                                g as int,
                                m.inputs,
                                lr,
                                off,
                                (j + 1) as nat,
                                m.input_size,
                            );
                            assert(bw_units(m, ev, lr, (i + 1) as nat) is None);
                            lemma_bw_units_poison(m, ev, lr, (i + 1) as nat, m.output_size);
                        }
                        return Err(NetError::FatalNumericDefect);
                    },
                };
                let upd = match fx_mul(gx, learning_rate) {
                    Some(upd) => upd,
                    None => {
                        proof {
                            assert(bw_inner(
                                w_at_unit,
                                res_at_unit,
                                g as int,
                                m.inputs,
                                lr,
                                off,
                                (j + 1) as nat,
                            ) is None);
                            lemma_bw_inner_poison(
                                w_at_unit,
                                res_at_unit,
                                g as int,
                                m.inputs,
                                lr,
                                off,
                                (j + 1) as nat,
                                m.input_size,
                            );
                            assert(bw_units(m, ev, lr, (i + 1) as nat) is None);
                            lemma_bw_units_poison(m, ev, lr, (i + 1) as nat, m.output_size);
                        }
                        return Err(NetError::FatalNumericDefect);
                    },
                };
                let wnew = match fx_sub(wv, upd) {
                    Some(wnew) => wnew,
                    None => {
                        proof {
                            assert(bw_inner(
                                w_at_unit,
                                res_at_unit,
                                g as int,
                                m.inputs,
                                lr,
                                off,
                                (j + 1) as nat,
                            ) is None);
                            lemma_bw_inner_poison(
                                w_at_unit,
                                res_at_unit,
                                g as int,
                                m.inputs,
                                lr,
                                off,
                                (j + 1) as nat,
                                m.input_size,
                            );
                            assert(bw_units(m, ev, lr, (i + 1) as nat) is None);
                            lemma_bw_units_poison(m, ev, lr, (i + 1) as nat, m.output_size);
                        }
                        return Err(NetError::FatalNumericDefect);
                    },
                };
                w[idx] = wnew;
                res[j] = racc;
                proof {
                    assert(to_ints(w@) =~= bw_inner(
                        w_at_unit,
                        res_at_unit,
                        g as int,
                        m.inputs,
                        lr,
                        off,
                        (j + 1) as nat,
                    ).unwrap().0);
                    assert(to_ints(res@) =~= bw_inner(
                        w_at_unit,
                        res_at_unit,
                        g as int,
                        m.inputs,
                        lr,
                        off,
                        (j + 1) as nat,
                    ).unwrap().1);
                }
                j = j + 1;
            }
            b[i] = bnew;
            proof {
                assert(to_ints(b@) =~= bw_units(m, ev, lr, (i + 1) as nat).unwrap().0);
                assert(bw_units(m, ev, lr, (i + 1) as nat) == Some(
                    (to_ints(b@), to_ints(w@), to_ints(res@)),
                ));
            }
            i = i + 1;
        }
        self.bias = b;
        self.weights = w;
        self.cache_valid = false;
        proof {
            assert(self@ =~= dense_backward_full(m, ev, lr).0);
        }
        Ok(res)
    }
}


/// Largest element of a nonempty sequence.
pub open spec fn seq_max(s: Seq<int>) -> int
    recommends
        s.len() > 0,
    decreases s.len(),
{
    if s.len() <= 1 {
        s[0]
    } else if s.last() > seq_max(s.drop_last()) {
        s.last()
    } else {
        seq_max(s.drop_last())
    }
}

/// Sum of a sequence.
pub open spec fn seq_sum(s: Seq<int>) -> int
    decreases s.len(),
{
    if s.len() == 0 {
        0
    } else {
        seq_sum(s.drop_last()) + s.last()
    }
}

pub proof fn lemma_seq_max_props(s: Seq<int>)
    requires
        s.len() > 0,
    ensures
        forall|k: int| 0 <= k < s.len() ==> s[k] <= seq_max(s),
        exists|k: int| 0 <= k < s.len() && s[k] == seq_max(s),
    decreases s.len(),
{
    if s.len() == 1 {
        assert(s[0] == seq_max(s));
    } else {
        lemma_seq_max_props(s.drop_last());
        if s.last() > seq_max(s.drop_last()) {
            assert(s[s.len() - 1] == seq_max(s));
        } else {
            let k0 = choose|k: int|
                0 <= k < s.drop_last().len() && s.drop_last()[k] == seq_max(s.drop_last());
            assert(s[k0] == seq_max(s));
        }
        assert forall|k: int| 0 <= k < s.len() implies s[k] <= seq_max(s) by {
            if k < s.len() - 1 {
                assert(s.drop_last()[k] == s[k]);
                assert(s.drop_last()[k] <= seq_max(s.drop_last()));
            }
        }
    }
}

pub proof fn lemma_seq_sum_bounds(s: Seq<int>, c: int)
    requires
        forall|k: int| 0 <= k < s.len() ==> 0 <= #[trigger] s[k] <= c,
    ensures
        0 <= seq_sum(s) <= s.len() * c,
    decreases s.len(),
{
    if s.len() > 0 {
        lemma_seq_sum_bounds(s.drop_last(), c);
        assert(0 <= s[s.len() - 1] <= c);
        assert(((s.len() - 1) as int) * c + c == (s.len() as int) * c) by (nonlinear_arith);
    }
}

pub proof fn lemma_seq_sum_ge_elem(s: Seq<int>, k: int)
    requires
        forall|q: int| 0 <= q < s.len() ==> #[trigger] s[q] >= 0,
        0 <= k < s.len(),
    ensures
        s[k] <= seq_sum(s),
    decreases s.len(),
{
    if k == s.len() - 1 {
        lemma_seq_sum_bounds_nonneg(s.drop_last());
    } else {
        lemma_seq_sum_ge_elem(s.drop_last(), k);
    }
}

proof fn lemma_seq_sum_bounds_nonneg(s: Seq<int>)
    requires
        forall|q: int| 0 <= q < s.len() ==> #[trigger] s[q] >= 0,
    ensures
        seq_sum(s) >= 0,
    decreases s.len(),
{
    if s.len() > 0 {
        lemma_seq_sum_bounds_nonneg(s.drop_last());
    }
}

/// The mathematical state of a softmax layer.
#[verifier::ext_equal]
pub struct SoftmaxModel {
    pub size: nat,
    /// Cached input of the last forward call.
    pub inputs: Seq<int>,
    /// Cached output distribution of the last forward call.
    pub outputs: Seq<int>,
    pub cache_valid: bool,
}

pub open spec fn softmax_wf(m: SoftmaxModel) -> bool {
    &&& m.inputs.len() == m.size
    &&& m.outputs.len() == m.size
    &&& forall|k: int| 0 <= k < m.outputs.len() ==> 0 <= #[trigger] m.outputs[k] <= SCALE
}

/// The softmax distribution: the largest input is shifted to zero (which
/// leaves the mathematical result unchanged and keeps every exponential in
/// the unit interval), and each exponential is divided by their sum.
pub open spec fn softmax_s(x: Seq<int>) -> Seq<int>
    recommends
        x.len() > 0,
{
    let es = softmax_exps(x);
    let t = seq_sum(es);
    Seq::new(x.len(), |i: int| tdiv(es[i] * (SCALE as int), t))
}

pub open spec fn softmax_exps(x: Seq<int>) -> Seq<int> {
    Seq::new(x.len(), |i: int| exp_fx_s(x[i] - seq_max(x)))
}

/// What a softmax forward call does: the new layer state and the result.
pub open spec fn softmax_forward_full(m: SoftmaxModel, x: Seq<int>) -> (SoftmaxModel, Result<
    Seq<int>,
    NetError,
>) {
    if x.len() != m.size {
        (m, Err(NetError::ShapeMismatch))
    } else {
        let out = softmax_s(x);
        (SoftmaxModel { inputs: x, outputs: out, cache_valid: true, ..m }, Ok(out))
    }
}

/// The diagonal-only softmax backward rule the engine uses:
/// error times output times (one minus output), elementwise. Cross-unit
/// terms of the full softmax Jacobian are deliberately ignored.
pub open spec fn softmax_backward_s(o: Seq<int>, e: Seq<int>) -> Seq<int> {
    Seq::new(
        e.len(),
        |i: int| tdiv(tdiv(e[i] * o[i], SCALE as int) * ((SCALE as int) - o[i]), SCALE as int),
    )
}

/// What a softmax backward call does: the new layer state and the result.
pub open spec fn softmax_backward_full(m: SoftmaxModel, e: Seq<int>, lr: int) -> (
    SoftmaxModel,
    Result<Seq<int>, NetError>,
) {
    if e.len() != m.size {
        (m, Err(NetError::ShapeMismatch))
    } else if !m.cache_valid {
        (m, Err(NetError::StaleCache))
    } else {
        (SoftmaxModel { cache_valid: false, ..m }, Ok(softmax_backward_s(m.outputs, e)))
    }
}

/// Every softmax output lies in the unit interval, and the exponentials
/// sum to at least one, so the division is well defined.
pub proof fn lemma_softmax_parts(x: Seq<int>)
    requires
        x.len() > 0,
    ensures
        forall|k: int| 0 <= k < x.len() ==> 0 <= #[trigger] softmax_exps(x)[k] <= SCALE,
        (SCALE as int) <= seq_sum(softmax_exps(x)) <= x.len() * (SCALE as int),
        forall|k: int| 0 <= k < x.len() ==> 0 <= #[trigger] softmax_s(x)[k] <= SCALE,
{
    let es = softmax_exps(x);
    let mx = seq_max(x);
    lemma_seq_max_props(x);
    assert forall|k: int| 0 <= k < x.len() implies 0 <= #[trigger] es[k] <= SCALE by {
        crate::fixed::lemma_exp_fx_s_range(x[k] - mx);
    }
    lemma_seq_sum_bounds(es, SCALE as int);
    let k0 = choose|k: int| 0 <= k < x.len() && x[k] == mx;
    crate::fixed::lemma_exp_fx_s_range(0);
    assert(es[k0] == SCALE as int);
    lemma_seq_sum_ge_elem(es, k0);
    let t = seq_sum(es);
    assert forall|k: int| 0 <= k < x.len() implies 0 <= #[trigger] softmax_s(x)[k] <= SCALE by {
        lemma_seq_sum_ge_elem(es, k);
        assert(es[k] * (SCALE as int) <= t * (SCALE as int)) by (nonlinear_arith)
            requires
                es[k] <= t,
        ;
        lemma_tdiv_le(es[k] * (SCALE as int), t, SCALE as int);
    }
}

/// A softmax layer: turns a vector into a probability distribution with
/// `output[i] = e^(input[i]) / sum of e^(input[k])`. It has no learnable
/// parameters; backward only scales the upstream error.
pub struct SoftmaxLayer {
    pub input_size: usize,
    pub inputs: Vec<i64>,
    pub outputs: Vec<i64>,
    cache_valid: bool,
}

impl View for SoftmaxLayer {
    type V = SoftmaxModel;

    closed spec fn view(&self) -> SoftmaxModel {
        SoftmaxModel {
            size: self.input_size as nat,
            inputs: to_ints(self.inputs@),
            outputs: to_ints(self.outputs@),
            cache_valid: self.cache_valid,
        }
    }
}

impl SoftmaxLayer {
    /// A fresh softmax layer over `input_size` units.
    pub fn new(input_size: usize) -> (r: SoftmaxLayer)
        ensures
            softmax_wf(r@),
            r@.size == input_size,
            r@.cache_valid == false,
    {
        SoftmaxLayer {
            input_size,
            inputs: zero_vec(input_size),
            outputs: zero_vec(input_size),
            cache_valid: false,
        }
    }

    pub fn get_input_size(&self) -> (n: usize)
        ensures
            n == self@.size,
    {
        self.input_size
    }

    pub fn get_output_size(&self) -> (n: usize)
        ensures
            n == self@.size,
    {
        self.input_size
    }

    /// The softmax distribution of the input; caches it for backward.
    /// Fails only with `ShapeMismatch`, leaving the layer untouched.
    pub fn forward(&mut self, inputs: &Vec<i64>) -> (result: Result<Vec<i64>, NetError>)
        requires
            softmax_wf(old(self)@),
        ensures
            softmax_wf(final(self)@),
            final(self)@ == softmax_forward_full(old(self)@, to_ints(inputs@)).0,
            res_view(result) == softmax_forward_full(old(self)@, to_ints(inputs@)).1,
    {
        let ghost m = self@;
        let ghost xs = to_ints(inputs@);
        if inputs.len() != self.input_size {
            return Err(NetError::ShapeMismatch);
        }
        if inputs.len() == 0 {
            let out: Vec<i64> = Vec::new();
            self.inputs = copy_ints(inputs);
            self.outputs = copy_ints(&out);
            self.cache_valid = true;
            proof {
                assert(softmax_s(xs) =~= to_ints(out@));
                assert(self@ =~= softmax_forward_full(m, xs).0);
            }
            return Ok(out);
        }
        let n = inputs.len();
        let mut mx: i64 = inputs[0];
        let mut i: usize = 1;
        proof {
            assert(xs.take(1).len() == 1 && xs.take(1)[0] == xs[0]);
        }
        while i < n
            invariant
                1 <= i <= n,
                n == inputs@.len(),
                xs == to_ints(inputs@),
                mx == seq_max(xs.take(i as int)),
            decreases n - i,
        {
            proof {
                assert(xs.take(i + 1).drop_last() =~= xs.take(i as int));
                assert(xs.take(i + 1).last() == xs[i as int]);
            }
            if inputs[i] > mx {
                mx = inputs[i];
            }
            i = i + 1;
        }
        proof {
            assert(xs.take(n as int) =~= xs);
            lemma_seq_max_props(xs);
        }
        let ghost es = softmax_exps(xs);
        let mut e: Vec<i64> = Vec::new();
        let mut t: i128 = 0;
        let mut i: usize = 0;
        while i < n
            invariant
                i <= n,
                n == inputs@.len(),
                xs == to_ints(inputs@),
                mx == seq_max(xs),
                es == softmax_exps(xs),
                e@.len() == i,
                to_ints(e@) =~= es.take(i as int),
                forall|k: int| 0 <= k < i ==> 0 <= #[trigger] e@[k] <= SCALE,
                t == seq_sum(es.take(i as int)),
                0 <= t <= (i as int) * (SCALE as int),
            decreases n - i,
        {
            proof {
                lemma_seq_max_props(xs);
                crate::fixed::lemma_exp_fx_s_range(xs[i as int] - mx);
            }
            let d: i128 = (inputs[i] as i128) - (mx as i128);
            let ev: i64 = if d <= -(EXP_UNDERFLOW as i128) {
                0
            } else {
                crate::fixed::exp_fx(d as i64)
            };
            let ghost e_old = e@;
            e.push(ev);
            t = t + (ev as i128);
            proof {
                assert(ev as int == es[i as int]);
                assert(to_ints(e@) =~= to_ints(e_old).push(ev as int));
                assert(es.take(i + 1).drop_last() =~= es.take(i as int));
                assert(es.take(i + 1).last() == es[i as int]);
            }
            i = i + 1;
        }
        proof {
            assert(es.take(n as int) =~= es);
            lemma_softmax_parts(xs);
        }
        let ghost outs = softmax_s(xs);
        let mut out: Vec<i64> = Vec::new();
        let mut i: usize = 0;
        while i < n
            invariant
                i <= n,
                n == inputs@.len(),
                xs == to_ints(inputs@),
                es == softmax_exps(xs),
                outs == softmax_s(xs),
                t == seq_sum(es),
                (SCALE as int) <= t,
                forall|k: int| 0 <= k < n ==> 0 <= #[trigger] es[k] <= SCALE,
                e@.len() == n,
                to_ints(e@) == es,
                out@.len() == i,
                to_ints(out@) =~= outs.take(i as int),
                forall|k: int| 0 <= k < i ==> 0 <= #[trigger] out@[k] <= SCALE,
            decreases n - i,
        {
            proof {
                lemma_seq_sum_ge_elem(es, i as int);
                assert(es[i as int] * (SCALE as int) <= (t as int) * (SCALE as int))
                    by (nonlinear_arith)
                    requires
                        es[i as int] <= t as int,
                ;
                lemma_tdiv_le(es[i as int] * (SCALE as int), t as int, SCALE as int);
            }
            let q: i128 = crate::fixed::div_trunc((e[i] as i128) * (SCALE as i128), t);
            let ghost out_old = out@;
            out.push(q as i64);
            proof {
                assert(q as int == outs[i as int]);
                assert(to_ints(out@) =~= to_ints(out_old).push(q as int));
                assert(to_ints(out@) =~= outs.take(i + 1));
            }
            i = i + 1;
        }
        self.inputs = copy_ints(inputs);
        self.outputs = copy_ints(&out);
        self.cache_valid = true;
        proof {
            assert(to_ints(out@) =~= outs);
            assert(self@ =~= softmax_forward_full(m, xs).0);
        }
        Ok(out)
    }

    /// Scales each upstream error by `output * (1 - output)` at the cached
    /// distribution: the diagonal approximation of the softmax Jacobian.
    /// The learning rate is accepted but unused: there are no parameters.
    /// Fails with `ShapeMismatch` on a wrong-length error vector and
    /// `StaleCache` without a fresh forward call.
    pub fn backward(&mut self, errors: &Vec<i64>, _learning_rate: i64) -> (result: Result<
        Vec<i64>,
        NetError,
    >)
        requires
            softmax_wf(old(self)@),
        ensures
            softmax_wf(final(self)@),
            final(self)@ == softmax_backward_full(old(self)@, to_ints(errors@), 0).0,
            res_view(result) == softmax_backward_full(old(self)@, to_ints(errors@), 0).1,
    {
        let ghost m = self@;
        let ghost ev = to_ints(errors@);
        if errors.len() != self.input_size {
            return Err(NetError::ShapeMismatch);
        }
        if !self.cache_valid {
            return Err(NetError::StaleCache);
        }
        let ghost rs = softmax_backward_s(m.outputs, ev);
        let n = errors.len();
        let mut out: Vec<i64> = Vec::new();
        let mut i: usize = 0;
        while i < n
            invariant
                i <= n,
                m == self@,
                *self == *old(self),
                softmax_wf(m),
                m.cache_valid,
                ev == to_ints(errors@),
                n == errors@.len(),
                n == m.size,
                rs == softmax_backward_s(m.outputs, ev),
                out@.len() == i,
                to_ints(out@) =~= rs.take(i as int),
            decreases n - i,
        {
            let o = self.outputs[i];
            proof {
                assert(0 <= m.outputs[i as int] <= SCALE);
                assert(o as int == m.outputs[i as int]);
                lemma_i64_mul_fits_layer(ev[i as int], o as int);
                lemma_tdiv_scale_bound(ev[i as int], o as int);
            }
            let q1: i128 = crate::fixed::div_trunc(
                (errors[i] as i128) * (o as i128),
                SCALE as i128,
            );
            proof {
                lemma_i64_mul_fits_layer(q1 as int, (SCALE as int) - o as int);
                lemma_tdiv_scale_bound(q1 as int, (SCALE as int) - o as int);
            }
            let q2: i128 = crate::fixed::div_trunc(q1 * ((SCALE - o) as i128), SCALE as i128);
            let ghost out_old = out@;
            out.push(q2 as i64);
            proof {
                assert(q2 as int == rs[i as int]);
                assert(to_ints(out@) =~= to_ints(out_old).push(q2 as int));
                assert(to_ints(out@) =~= rs.take(i + 1));
            }
            i = i + 1;
        }
        self.cache_valid = false;
        proof {
            assert(to_ints(out@) =~= rs);
            assert(self@ =~= softmax_backward_full(m, ev, 0).0);
        }
        Ok(out)
    }
}

/// The product of two `i64`-ranged values stays inside the `i128` range.
proof fn lemma_i64_mul_fits_layer(a: int, b: int)
    requires
        i64::MIN <= a <= i64::MAX,
        i64::MIN <= b <= i64::MAX,
    ensures
        i128::MIN < a * b < i128::MAX,
{
    assert(i128::MIN < a * b < i128::MAX) by (nonlinear_arith)
        requires
            -0x8000_0000_0000_0000 <= a <= 0x7fff_ffff_ffff_ffff,
            -0x8000_0000_0000_0000 <= b <= 0x7fff_ffff_ffff_ffff,
    ;
}


/// The mathematical state of any layer.
#[verifier::ext_equal]
pub enum LayerModel {
    Dense(DenseModel),
    Softmax(SoftmaxModel),
}

pub open spec fn layer_wf(lm: LayerModel) -> bool {
    match lm {
        LayerModel::Dense(m) => dense_wf(m),
        LayerModel::Softmax(m) => softmax_wf(m),
    }
}

pub open spec fn layer_in_size(lm: LayerModel) -> nat {
    match lm {
        LayerModel::Dense(m) => m.input_size,
        LayerModel::Softmax(m) => m.size,
    }
}

pub open spec fn layer_out_size(lm: LayerModel) -> nat {
    match lm {
        LayerModel::Dense(m) => m.output_size,
        LayerModel::Softmax(m) => m.size,
    }
}

/// What a forward call does to any layer.
pub open spec fn layer_forward_full(lm: LayerModel, x: Seq<int>) -> (LayerModel, Result<
    Seq<int>,
    NetError,
>) {
    match lm {
        LayerModel::Dense(m) => {
            let r = dense_forward_full(m, x);
            (LayerModel::Dense(r.0), r.1)
        },
        LayerModel::Softmax(m) => {
            let r = softmax_forward_full(m, x);
            (LayerModel::Softmax(r.0), r.1)
        },
    }
}

/// What a backward call does to any layer.
pub open spec fn layer_backward_full(lm: LayerModel, e: Seq<int>, lr: int) -> (LayerModel, Result<
    Seq<int>,
    NetError,
>) {
    match lm {
        LayerModel::Dense(m) => {
            let r = dense_backward_full(m, e, lr);
            (LayerModel::Dense(r.0), r.1)
        },
        LayerModel::Softmax(m) => {
            let r = softmax_backward_full(m, e, lr);
            (LayerModel::Softmax(r.0), r.1)
        },
    }
}

/// A forward call keeps the declared sizes, and a successful one returns
/// a vector of the layer's output size.
pub proof fn lemma_layer_forward_shape(lm: LayerModel, x: Seq<int>)
    requires
        layer_wf(lm),
    ensures
        layer_wf(layer_forward_full(lm, x).0),
        layer_in_size(layer_forward_full(lm, x).0) == layer_in_size(lm),
        layer_out_size(layer_forward_full(lm, x).0) == layer_out_size(lm),
        layer_forward_full(lm, x).1 is Ok ==> layer_forward_full(lm, x).1.unwrap().len()
            == layer_out_size(lm),
        layer_forward_full(lm, x).1 is Ok ==> x.len() == layer_in_size(lm),
{
    match lm {
        LayerModel::Dense(m) => {
            if x.len() == m.input_size && pre_seq(m, x, m.output_size) is Some {
                lemma_pre_seq_len(m, x, m.output_size);
            }
        },
        LayerModel::Softmax(m) => {
            if x.len() == m.size {
                lemma_softmax_parts_or_empty(x);
            }
        },
    }
}

/// A successful forward pass produces one pre-activation per output unit.
proof fn lemma_pre_seq_len(m: DenseModel, x: Seq<int>, n: nat)
    requires
        pre_seq(m, x, n) is Some,
    ensures
        pre_seq(m, x, n).unwrap().len() == n,
    decreases n,
{
    if n > 0 {
        lemma_pre_seq_len(m, x, (n - 1) as nat);
    }
}

/// Softmax outputs stay in the unit interval, also for the empty vector.
proof fn lemma_softmax_parts_or_empty(x: Seq<int>)
    ensures
        softmax_s(x).len() == x.len(),
        forall|k: int| 0 <= k < x.len() ==> 0 <= #[trigger] softmax_s(x)[k] <= SCALE,
{
    if x.len() > 0 {
        lemma_softmax_parts(x);
    }
}

/// A backward call keeps the declared sizes, and a successful one returns
/// a vector of the layer's input size.
pub proof fn lemma_layer_backward_shape(lm: LayerModel, e: Seq<int>, lr: int)
    requires
        layer_wf(lm),
    ensures
        layer_wf(layer_backward_full(lm, e, lr).0),
        layer_in_size(layer_backward_full(lm, e, lr).0) == layer_in_size(lm),
        layer_out_size(layer_backward_full(lm, e, lr).0) == layer_out_size(lm),
        layer_backward_full(lm, e, lr).1 is Ok ==> layer_backward_full(lm, e, lr).1.unwrap().len()
            == layer_in_size(lm),
{
    match lm {
        LayerModel::Dense(m) => {
            if e.len() == m.output_size && m.cache_valid && bw_units(m, e, lr, m.output_size)
                is Some {
                lemma_bw_units_shape(m, e, lr, m.output_size);
            }
        },
        LayerModel::Softmax(m) => {},
    }
}

/// A successful backward pass keeps the shapes of the bias, weights and
/// propagated error.
proof fn lemma_bw_units_shape(m: DenseModel, e: Seq<int>, lr: int, i: nat)
    requires
        dense_wf(m),
        i <= m.output_size,
        bw_units(m, e, lr, i) is Some,
    ensures
        bw_units(m, e, lr, i).unwrap().0.len() == m.bias.len(),
        bw_units(m, e, lr, i).unwrap().1.len() == m.weights.len(),
        bw_units(m, e, lr, i).unwrap().2.len() == m.input_size,
    decreases i,
{
    if i > 0 {
        assert(bw_units(m, e, lr, (i - 1) as nat) is Some);
        lemma_bw_units_shape(m, e, lr, (i - 1) as nat);
        let st = bw_units(m, e, lr, (i - 1) as nat).unwrap();
        let g = fx_mul_s(e[i - 1], act_deriv_s(m.act, m.cache[i - 1])).unwrap();
        let gl = fx_mul_s(g, lr).unwrap();
        let bnew = fx_sub_s(st.0[i - 1], gl).unwrap();
        let off = (i - 1) * m.input_size;
        assert(0 <= off && off + m.input_size <= m.output_size * m.input_size) by (nonlinear_arith)
            requires
                1 <= i <= m.output_size,
                off == (i - 1) * m.input_size,
                m.input_size >= 0,
                m.output_size >= 0,
        ;
        assert(bw_inner(st.1, st.2, g, m.inputs, lr, off, m.input_size) is Some);
        lemma_bw_inner_shape(st.1, st.2, g, m.inputs, lr, off, m.input_size);
        let wr = bw_inner(st.1, st.2, g, m.inputs, lr, off, m.input_size).unwrap();
        assert(bw_units(m, e, lr, i).unwrap() == (st.0.update(i - 1, bnew), wr.0, wr.1));
    }
}

proof fn lemma_bw_inner_shape(
    w: Seq<int>,
    res: Seq<int>,
    g: int,
    x: Seq<int>,
    lr: int,
    off: int,
    j: nat,
)
    requires
        bw_inner(w, res, g, x, lr, off, j) is Some,
        0 <= off,
        off + j <= w.len(),
        j <= res.len(),
    ensures
        bw_inner(w, res, g, x, lr, off, j).unwrap().0.len() == w.len(),
        bw_inner(w, res, g, x, lr, off, j).unwrap().1.len() == res.len(),
    decreases j,
{
    if j > 0 {
        assert(bw_inner(w, res, g, x, lr, off, (j - 1) as nat) is Some);
        lemma_bw_inner_shape(w, res, g, x, lr, off, (j - 1) as nat);
        let wr = bw_inner(w, res, g, x, lr, off, (j - 1) as nat).unwrap();
        let idx = off + j - 1;
        let d = fx_mul_s(g, wr.0[idx]).unwrap();
        let racc = fx_add_s(wr.1[j - 1], d).unwrap();
        let gx = fx_mul_s(g, x[j - 1]).unwrap();
        let upd = fx_mul_s(gx, lr).unwrap();
        let wnew = fx_sub_s(wr.0[idx], upd).unwrap();
        let p0 = wr.0.update(idx, wnew);
        let p1 = wr.1.update(j - 1, racc);
        assert(p0.len() == wr.0.len());
        assert(p1.len() == wr.1.len());
        assert(bw_inner(w, res, g, x, lr, off, j).unwrap() == (p0, p1));
        assert(bw_inner(w, res, g, x, lr, off, j).unwrap().0.len() == w.len());
        assert(bw_inner(w, res, g, x, lr, off, j).unwrap().1.len() == res.len());
    }
}

/// The views of an ordered list of layers.
pub open spec fn layer_views(s: Seq<Layer>) -> Seq<LayerModel> {
    s.map_values(|l: Layer| l@)
}

/// A layer of the network: dense or softmax, dispatched by match.
pub enum Layer {
    Dense(DenseLayer),
    Softmax(SoftmaxLayer),
}

impl View for Layer {
    type V = LayerModel;

    open spec fn view(&self) -> LayerModel {
        match self {
            Layer::Dense(l) => LayerModel::Dense(l@),
            Layer::Softmax(l) => LayerModel::Softmax(l@),
        }
    }
}

impl Layer {
    pub fn get_input_size(&self) -> (n: usize)
        ensures
            n == layer_in_size(self@),
    {
        match self {
            Layer::Dense(l) => l.get_input_size(),
            Layer::Softmax(l) => l.get_input_size(),
        }
    }

    pub fn get_output_size(&self) -> (n: usize)
        ensures
            n == layer_out_size(self@),
    {
        match self {
            Layer::Dense(l) => l.get_output_size(),
            Layer::Softmax(l) => l.get_output_size(),
        }
    }

    /// Forward pass of whichever layer this is.
    pub fn forward(&mut self, inputs: &Vec<i64>) -> (result: Result<Vec<i64>, NetError>)
        requires
            layer_wf(old(self)@),
        ensures
            layer_wf(final(self)@),
            final(self)@ == layer_forward_full(old(self)@, to_ints(inputs@)).0,
            res_view(result) == layer_forward_full(old(self)@, to_ints(inputs@)).1,
    {
        match self {
            Layer::Dense(l) => l.forward(inputs),
            Layer::Softmax(l) => l.forward(inputs),
        }
    }

    /// Backward pass of whichever layer this is.
    pub fn backward(&mut self, errors: &Vec<i64>, learning_rate: i64) -> (result: Result<
        Vec<i64>,
        NetError,
    >)
        requires
            layer_wf(old(self)@),
        ensures
            layer_wf(final(self)@),
            final(self)@ == layer_backward_full(
                old(self)@,
                to_ints(errors@),
                learning_rate as int,
            ).0,
            res_view(result) == layer_backward_full(
                old(self)@,
                to_ints(errors@),
                learning_rate as int,
            ).1,
    {
        match self {
            Layer::Dense(l) => l.backward(errors, learning_rate),
            Layer::Softmax(l) => l.backward(errors, learning_rate),
        }
    }
}


/// For two nonnegative dividends, the quotient of the sum differs from
/// the sum of the quotients by at most one.
proof fn lemma_div_sum_parts(p: int, q: int, t: int)
    requires
        p >= 0,
        q >= 0,
        t > 0,
    ensures
        p / t + q / t <= (p + q) / t <= p / t + q / t + 1,
{
    vstd::arithmetic::div_mod::lemma_fundamental_div_mod(p, t);
    vstd::arithmetic::div_mod::lemma_fundamental_div_mod(q, t);
    vstd::arithmetic::div_mod::lemma_mod_division_less_than_divisor(p, t);
    vstd::arithmetic::div_mod::lemma_mod_division_less_than_divisor(q, t);
    lemma_div_pos_parts(p, t);
    lemma_div_pos_parts(q, t);
    let r = p % t + q % t;
    if r < t {
        assert(p + q == (p / t + q / t) * t + r) by (nonlinear_arith)
            requires
                p == t * (p / t) + p % t && q == t * (q / t) + q % t && r == p % t + q % t,
        ;
        vstd::arithmetic::div_mod::lemma_fundamental_div_mod_converse(
            p + q,
            t,
            p / t + q / t,
            r,
        );
    } else {
        assert(p + q == (p / t + q / t + 1) * t + (r - t)) by (nonlinear_arith)
            requires
                p == t * (p / t) + p % t && q == t * (q / t) + q % t && r == p % t + q % t,
        ;
        vstd::arithmetic::div_mod::lemma_fundamental_div_mod_converse(
            p + q,
            t,
            p / t + q / t + 1,
            r - t,
        );
    }
}

proof fn lemma_div_pos_parts(p: int, t: int)
    requires
        p >= 0,
        t > 0,
    ensures
        p / t >= 0,
        p % t >= 0,
{
    vstd::arithmetic::div_mod::lemma_div_pos_is_pos(p, t);
    vstd::arithmetic::div_mod::lemma_mod_division_less_than_divisor(p, t);
}

/// Summing the scaled quotients loses less than one unit per term against
/// the quotient of the scaled sum.
proof fn lemma_sum_scaled_divs(es: Seq<int>, t: int)
    requires
        t > 0,
        forall|k: int| 0 <= k < es.len() ==> #[trigger] es[k] >= 0,
    ensures
        seq_sum(Seq::new(es.len(), |i: int| tdiv(es[i] * (SCALE as int), t))) <= tdiv(
            seq_sum(es) * (SCALE as int),
            t,
        ),
        seq_sum(Seq::new(es.len(), |i: int| tdiv(es[i] * (SCALE as int), t))) + es.len() >= tdiv(
            seq_sum(es) * (SCALE as int),
            t,
        ),
    decreases es.len(),
{
    let outs = Seq::new(es.len(), |i: int| tdiv(es[i] * (SCALE as int), t));
    if es.len() == 0 {
        assert(seq_sum(es) == 0);
        assert(tdiv(0, t) == 0) by {
            crate::fixed::lemma_tdiv_bounds(0, t);
        }
    } else {
        let s1 = es.drop_last();
        let outs1 = Seq::new(s1.len(), |i: int| tdiv(s1[i] * (SCALE as int), t));
        lemma_sum_scaled_divs(s1, t);
        assert(outs.drop_last() =~= outs1);
        let a = seq_sum(s1) * (SCALE as int);
        let b = es.last() * (SCALE as int);
        assert(a >= 0) by {
            lemma_seq_sum_bounds_nonneg(s1);
        }
        assert(b >= 0);
        lemma_div_sum_parts(a, b, t);
        assert(seq_sum(es) * (SCALE as int) == a + b) by (nonlinear_arith)
            requires
                seq_sum(es) == seq_sum(s1) + es.last() && a == seq_sum(s1) * (SCALE as int) && b
                    == es.last() * (SCALE as int),
        ;
    }
}

/// Softmax outputs are nonnegative, never exceed one, and their total
/// falls short of one by less than one unit per output: the distribution
/// sums to 1.0 within rounding.
pub proof fn lemma_softmax_sum_near_one(x: Seq<int>)
    requires
        x.len() >= 1,
    ensures
        forall|k: int| 0 <= k < x.len() ==> 0 <= #[trigger] softmax_s(x)[k] <= SCALE,
        (SCALE as int) - x.len() <= seq_sum(softmax_s(x)) <= SCALE as int,
{
    lemma_softmax_parts(x);
    let es = softmax_exps(x);
    let t = seq_sum(es);
    lemma_sum_scaled_divs(es, t);
    assert(softmax_s(x) =~= Seq::new(es.len(), |i: int| tdiv(es[i] * (SCALE as int), t)));
    crate::fixed::lemma_tdiv_exact(SCALE as int, t);
    assert(t * (SCALE as int) == (SCALE as int) * t) by (nonlinear_arith);
}

proof fn lemma_seq_max_shift(x: Seq<int>, c: int)
    requires
        x.len() > 0,
    ensures
        seq_max(x.map_values(|v: int| v + c)) == seq_max(x) + c,
    decreases x.len(),
{
    let y = x.map_values(|v: int| v + c);
    if x.len() == 1 {
        assert(y[0] == x[0] + c);
    } else {
        lemma_seq_max_shift(x.drop_last(), c);
        assert(y.drop_last() =~= x.drop_last().map_values(|v: int| v + c));
        assert(y.last() == x.last() + c);
    }
}

/// Adding the same constant to every input leaves the softmax output
/// unchanged: translation invariance, exact even in fixed point, because
/// the distribution depends only on the differences from the maximum.
pub proof fn lemma_softmax_translation(x: Seq<int>, c: int)
    requires
        x.len() > 0,
    ensures
        softmax_s(x.map_values(|v: int| v + c)) == softmax_s(x),
{
    let y = x.map_values(|v: int| v + c);
    lemma_seq_max_shift(x, c);
    assert(softmax_exps(y) =~= softmax_exps(x));
    assert(softmax_s(y) =~= softmax_s(x));
}

/// Entries the backward pass has not reached keep their bias.
proof fn lemma_bw_units_bias_untouched(m: DenseModel, e: Seq<int>, lr: int, k: nat, q: int)
    requires
        dense_wf(m),
        k <= m.output_size,
        k <= q < m.bias.len(),
        bw_units(m, e, lr, k) is Some,
    ensures
        bw_units(m, e, lr, k).unwrap().0[q] == m.bias[q],
    decreases k,
{
    if k > 0 {
        lemma_bw_units_shape(m, e, lr, (k - 1) as nat);
        lemma_bw_units_bias_untouched(m, e, lr, (k - 1) as nat, q);
    }
}

/// The bias update is exact: after a successful backward call, each unit's
/// bias has decreased by exactly its gradient scaled by the learning rate,
/// where the gradient is the upstream error times the activation
/// derivative at the cached pre-activation.
pub proof fn lemma_backward_bias_update(m: DenseModel, e: Seq<int>, lr: int, i: int)
    requires
        dense_wf(m),
        m.cache_valid,
        e.len() == m.output_size,
        0 <= i < m.output_size,
        dense_backward_full(m, e, lr).1 is Ok,
    ensures
        fx_mul_s(e[i], act_deriv_s(m.act, m.cache[i])) is Some,
        fx_mul_s(fx_mul_s(e[i], act_deriv_s(m.act, m.cache[i])).unwrap(), lr) is Some,
        dense_backward_full(m, e, lr).0.bias[i] == m.bias[i] - fx_mul_s(
            fx_mul_s(e[i], act_deriv_s(m.act, m.cache[i])).unwrap(),
            lr,
        ).unwrap(),
{
    lemma_bw_units_bias(m, e, lr, m.output_size, i);
}

proof fn lemma_bw_units_bias(m: DenseModel, e: Seq<int>, lr: int, k: nat, i: int)
    requires
        dense_wf(m),
        k <= m.output_size,
        0 <= i < k,
        bw_units(m, e, lr, k) is Some,
    ensures
        fx_mul_s(e[i], act_deriv_s(m.act, m.cache[i])) is Some,
        fx_mul_s(fx_mul_s(e[i], act_deriv_s(m.act, m.cache[i])).unwrap(), lr) is Some,
        bw_units(m, e, lr, k).unwrap().0[i] == m.bias[i] - fx_mul_s(
            fx_mul_s(e[i], act_deriv_s(m.act, m.cache[i])).unwrap(),
            lr,
        ).unwrap(),
    decreases k,
{
    let prev = bw_units(m, e, lr, (k - 1) as nat);
    assert(prev is Some);
    lemma_bw_units_shape(m, e, lr, (k - 1) as nat);
    if i == k - 1 {
        lemma_bw_units_bias_untouched(m, e, lr, (k - 1) as nat, i);
    } else {
        lemma_bw_units_bias(m, e, lr, (k - 1) as nat, i);
    }
}

/// A wrong-length input is rejected before anything happens: the layer is
/// unchanged and the call reports the mismatch.
pub proof fn lemma_dense_shape_mismatch(m: DenseModel, x: Seq<int>, e: Seq<int>, lr: int)
    ensures
        x.len() != m.input_size ==> dense_forward_full(m, x) == (
            m,
            Err::<Seq<int>, NetError>(NetError::ShapeMismatch),
        ),
        e.len() != m.output_size ==> dense_backward_full(m, e, lr) == (
            m,
            Err::<Seq<int>, NetError>(NetError::ShapeMismatch),
        ),
{
}

/// The softmax layer rejects wrong-length vectors the same way.
pub proof fn lemma_softmax_shape_mismatch(m: SoftmaxModel, x: Seq<int>, e: Seq<int>, lr: int)
    ensures
        x.len() != m.size ==> softmax_forward_full(m, x) == (
            m,
            Err::<Seq<int>, NetError>(NetError::ShapeMismatch),
        ),
        e.len() != m.size ==> softmax_backward_full(m, e, lr) == (
            m,
            Err::<Seq<int>, NetError>(NetError::ShapeMismatch),
        ),
{
}

} // verus!


