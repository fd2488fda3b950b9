//! The network: an ordered, nonempty chain of layers with a loss function.
//!
//! Forward threads an input through the layers in order; backward walks
//! them in reverse, handing each layer the error its successor propagated;
//! train runs forward and backward over a dataset for a number of epochs,
//! summing every example's loss into a per-epoch total.

use crate::error_function::{err_deriv_s, err_normal_s, ErrorFunction};
use crate::fixed::{copy_ints, fx_add, fx_add_s, to_ints, zero_seq, zero_vec};
use crate::layer::{
    layer_backward_full, layer_forward_full, layer_in_size, layer_out_size, layer_views, layer_wf,
    res_view, Layer, LayerModel,
};
use crate::NetError;
use vstd::prelude::*;

verus! {

/// The mathematical state of a network.
#[verifier::ext_equal]
pub struct NetModel {
    /// Cached input of the last forward call.
    pub inputs: Seq<int>,
    /// Cached output of the last forward call.
    pub outputs: Seq<int>,
    pub layers: Seq<LayerModel>,
    pub error_function: ErrorFunction,
}

pub open spec fn net_wf(nm: NetModel) -> bool {
    &&& nm.layers.len() > 0
    &&& forall|k: int| 0 <= k < nm.layers.len() ==> layer_wf(#[trigger] nm.layers[k])
}

/// The first `k` layers applied in order: the updated layer states and
/// either the running vector or the first failure.
pub open spec fn net_forward_seq(ls: Seq<LayerModel>, x: Seq<int>, k: nat) -> (Seq<LayerModel>,
    Result<Seq<int>, NetError>)
    decreases k,
{
    if k == 0 {
        (ls, Ok(x))
    } else {
        let prev = net_forward_seq(ls, x, (k - 1) as nat);
        match prev.1 {
            Ok(v) => {
                let step = layer_forward_full(prev.0[k - 1], v);
                (prev.0.update(k - 1, step.0), step.1)
            },
            Err(e) => prev,
        }
    }
}

proof fn lemma_net_forward_poison(ls: Seq<LayerModel>, x: Seq<int>, k1: nat, k2: nat)
    requires
        k1 <= k2,
        net_forward_seq(ls, x, k1).1 is Err,
    ensures
        net_forward_seq(ls, x, k2) == net_forward_seq(ls, x, k1),
    decreases k2,
{
    if k2 > k1 {
        lemma_net_forward_poison(ls, x, k1, (k2 - 1) as nat);
    }
}

/// What a network forward call does: the new network state and the result.
pub open spec fn net_forward_full(nm: NetModel, x: Seq<int>) -> (NetModel, Result<
    Seq<int>,
    NetError,
>)
    recommends
        nm.layers.len() > 0,
{
    if x.len() != layer_in_size(nm.layers[0]) {
        (nm, Err(NetError::ShapeMismatch))
    } else {
        let walk = net_forward_seq(nm.layers, x, nm.layers.len());
        match walk.1 {
            Ok(v) => (NetModel { inputs: x, outputs: v, layers: walk.0, ..nm }, Ok(v)),
            Err(e) => (NetModel { inputs: x, layers: walk.0, ..nm }, Err(e)),
        }
    }
}

/// The last `k` layers walked backward: the updated layer states and
/// either the running propagated error or the first failure.
pub open spec fn net_backward_seq(ls: Seq<LayerModel>, e: Seq<int>, lr: int, k: nat) -> (
    Seq<LayerModel>,
    Result<Seq<int>, NetError>,
)
    decreases k,
{
    if k == 0 {
        (ls, Ok(e))
    } else {
        let prev = net_backward_seq(ls, e, lr, (k - 1) as nat);
        match prev.1 {
            Ok(v) => {
                let idx = ls.len() - k;
                let step = layer_backward_full(prev.0[idx], v, lr);
                (prev.0.update(idx, step.0), step.1)
            },
            Err(err) => prev,
        }
    }
}

proof fn lemma_net_backward_poison(ls: Seq<LayerModel>, e: Seq<int>, lr: int, k1: nat, k2: nat)
    requires
        k1 <= k2,
        net_backward_seq(ls, e, lr, k1).1 is Err,
    ensures
        net_backward_seq(ls, e, lr, k2) == net_backward_seq(ls, e, lr, k1),
    decreases k2,
{
    if k2 > k1 {
        lemma_net_backward_poison(ls, e, lr, k1, (k2 - 1) as nat);
    }
}

/// What a network backward call does: the new network state and the result.
pub open spec fn net_backward_full(nm: NetModel, e: Seq<int>, lr: int) -> (NetModel, Result<
    Seq<int>,
    NetError,
>)
    recommends
        nm.layers.len() > 0,
{
    if e.len() != layer_out_size(nm.layers[nm.layers.len() - 1]) {
        (nm, Err(NetError::ShapeMismatch))
    } else {
        let walk = net_backward_seq(nm.layers, e, lr, nm.layers.len());
        (NetModel { layers: walk.0, ..nm }, walk.1)
    }
}

/// A feedforward network: the ordered layers it owns and the loss function
/// used by training.
pub struct Network {
    pub inputs: Vec<i64>,
    pub outputs: Vec<i64>,
    layers: Vec<Layer>,
    error_function: ErrorFunction,
}

impl View for Network {
    type V = NetModel;

    closed spec fn view(&self) -> NetModel {
        NetModel {
            inputs: to_ints(self.inputs@),
            outputs: to_ints(self.outputs@),
            layers: layer_views(self.layers@),
            error_function: self.error_function,
        }
    }
}

impl Network {
    /// A network over a nonempty, ordered list of layers; the input and
    /// output caches start at zero, sized from the first and last layer.
    pub fn new(layers: Vec<Layer>, error_function: ErrorFunction) -> (r: Network)
        requires
            layers@.len() > 0,
            forall|k: int| 0 <= k < layers@.len() ==> layer_wf(#[trigger] layers@[k]@),
        ensures
            net_wf(r@),
            r@.layers == layer_views(layers@),
            r@.error_function == error_function,
            r@.inputs == zero_seq(layer_in_size(layers@[0]@)),
            r@.outputs == zero_seq(layer_out_size(layers@[layers@.len() - 1]@)),
    {
        let in_size = layers[0].get_input_size();
        let out_size = layers[layers.len() - 1].get_output_size();
        let r = Network {
            inputs: zero_vec(in_size),
            outputs: zero_vec(out_size),
            layers,
            error_function,
        };
        proof {
            assert(r@.layers =~= layer_views(r.layers@));
        }
        r
    }

    /// Threads the input through every layer in order, caching the
    /// network-level input and output. Fails with `ShapeMismatch` if the
    /// input does not fit the first layer; a failure inside layer `k`
    /// leaves layers `k` and beyond untouched.
    pub fn forward(&mut self, inputs: &Vec<i64>) -> (result: Result<Vec<i64>, NetError>)
        requires
            net_wf(old(self)@),
        ensures
            net_wf(final(self)@),
            final(self)@ == net_forward_full(old(self)@, to_ints(inputs@)).0,
            res_view(result) == net_forward_full(old(self)@, to_ints(inputs@)).1,
    {
        let ghost m = self@;
        let ghost x = to_ints(inputs@);
        if inputs.len() != self.layers[0].get_input_size() {
            return Err(NetError::ShapeMismatch);
        }
        self.inputs = copy_ints(inputs);
        let n = self.layers.len();
        let mut cur = copy_ints(inputs);
        let mut i: usize = 0;
        while i < n
            invariant
                i <= n,
                n == self.layers@.len(),
                m.layers.len() == n,
                x == to_ints(inputs@),
                x.len() == layer_in_size(m.layers[0]),
                forall|k: int| 0 <= k < n ==> layer_wf(#[trigger] layer_views(self.layers@)[k]),
                self.inputs@ == inputs@,
                self.outputs == old(self).outputs,
                self.error_function == old(self).error_function,
                m == old(self)@,
                net_forward_seq(m.layers, x, i as nat) == (
                    layer_views(self.layers@),
                    Ok::<Seq<int>, NetError>(to_ints(cur@)),
                ),
            decreases n - i,
        {
            let ghost ls_before = layer_views(self.layers@);
            let ghost cur_before = to_ints(cur@);
            let r = self.layers[i].forward(&cur);
            proof {
                assert(layer_views(self.layers@) =~= ls_before.update(
                    i as int,
                    layer_forward_full(ls_before[i as int], cur_before).0,
                ));
            }
            match r {
                Ok(v) => {
                    cur = v;
                },
                Err(e) => {
                    proof {
                        assert(net_forward_seq(m.layers, x, (i + 1) as nat).1 == Err::<
                            Seq<int>,
                            NetError,
                        >(e));
                        lemma_net_forward_poison(m.layers, x, (i + 1) as nat, m.layers.len());
                        assert(self@ =~= net_forward_full(m, x).0);
                    }
                    return Err(e);
                },
            }
            i = i + 1;
        }
        self.outputs = copy_ints(&cur);
        proof {
            assert(self@ =~= net_forward_full(m, x).0);
        }
        Ok(cur)
    }

    /// Walks the layers in reverse, handing each the error propagated by
    /// its successor, and returns the error at the network input. Fails
    /// with `ShapeMismatch` if the error vector does not fit the last
    /// layer; each layer checks its own shape and cache freshness.
    pub fn backward(&mut self, errors: &Vec<i64>, learning_rate: i64) -> (result: Result<
        Vec<i64>,
        NetError,
    >)
        requires
            net_wf(old(self)@),
        ensures
            net_wf(final(self)@),
            final(self)@ == net_backward_full(
                old(self)@,
                to_ints(errors@),
                learning_rate as int,
            ).0,
            res_view(result) == net_backward_full(
                old(self)@,
                to_ints(errors@),
                learning_rate as int,
            ).1,
    {
        let ghost m = self@;
        let ghost ev = to_ints(errors@);
        let ghost lr = learning_rate as int;
        let n = self.layers.len();
        if errors.len() != self.layers[n - 1].get_output_size() {
            return Err(NetError::ShapeMismatch);
        }
        let mut delta = copy_ints(errors);
        let mut k: usize = 0;
        while k < n
            invariant
                k <= n,
                n == self.layers@.len(),
                m.layers.len() == n,
                ev == to_ints(errors@),
                ev.len() == layer_out_size(m.layers[n - 1]),
                lr == learning_rate as int,
                forall|q: int| 0 <= q < n ==> layer_wf(#[trigger] layer_views(self.layers@)[q]),
                self.inputs == old(self).inputs,
                self.outputs == old(self).outputs,
                self.error_function == old(self).error_function,
                m == old(self)@,
                net_backward_seq(m.layers, ev, lr, k as nat) == (
                    layer_views(self.layers@),
                    Ok::<Seq<int>, NetError>(to_ints(delta@)),
                ),
            decreases n - k,
        {
            let idx = n - 1 - k;
            let ghost ls_before = layer_views(self.layers@);
            let ghost delta_before = to_ints(delta@);
            let r = self.layers[idx].backward(&delta, learning_rate);
            proof {
                assert(idx as int == m.layers.len() - (k + 1));
                assert(layer_views(self.layers@) =~= ls_before.update(
                    idx as int,
                    layer_backward_full(ls_before[idx as int], delta_before, lr).0,
                ));
            }
            match r {
                Ok(v) => {
                    delta = v;
                },
                Err(e) => {
                    proof {
                        assert(net_backward_seq(m.layers, ev, lr, (k + 1) as nat).1 == Err::<
                            Seq<int>,
                            NetError,
                        >(e));
                        lemma_net_backward_poison(m.layers, ev, lr, (k + 1) as nat, m.layers.len());
                        assert(self@ =~= net_backward_full(m, ev, lr).0);
                    }
                    return Err(e);
                },
            }
            k = k + 1;
        }
        proof {
            assert(self@ =~= net_backward_full(m, ev, lr).0);
        }
        Ok(delta)
    }

    /// Runs `epochs` full passes over the dataset, one forward and one
    /// backward call per example in the order given, with the fixed
    /// learning rate. Returns the per-epoch loss totals (the sum of the
    /// loss over every output of every example). Fails with
    /// `ShapeMismatch` when the dataset is empty, the example counts
    /// disagree, or an example does not fit the network, and with
    /// `FatalNumericDefect` when the arithmetic diverges; training stops
    /// at the first failure, keeping the updates already applied.
    pub fn train(
        &mut self,
        inputs: &Vec<Vec<i64>>,
        targets: &Vec<Vec<i64>>,
        epochs: usize,
        learning_rate: i64,
    ) -> (result: Result<Vec<i64>, NetError>)
        requires
            net_wf(old(self)@),
        ensures
            net_wf(final(self)@),
            final(self)@ == train_full(
                old(self)@,
                vec2_ints(inputs@),
                vec2_ints(targets@),
                epochs as nat,
                learning_rate as int,
            ).0,
            result matches Ok(v) ==> {
                &&& train_full(
                    old(self)@,
                    vec2_ints(inputs@),
                    vec2_ints(targets@),
                    epochs as nat,
                    learning_rate as int,
                ).2 is Ok
                &&& to_ints(v@) == train_full(
                    old(self)@,
                    vec2_ints(inputs@),
                    vec2_ints(targets@),
                    epochs as nat,
                    learning_rate as int,
                ).1
            },
            result matches Err(e) ==> train_full(
                old(self)@,
                vec2_ints(inputs@),
                vec2_ints(targets@),
                epochs as nat,
                learning_rate as int,
            ).2 == Err::<(), NetError>(e),
    {
        let ghost m = self@;
        let ghost xs = vec2_ints(inputs@);
        let ghost ts = vec2_ints(targets@);
        let ghost lr = learning_rate as int;
        let in_size = self.layers[0].get_input_size();
        if inputs.len() < 1 || inputs[0].len() != in_size {
            return Err(NetError::ShapeMismatch);
        }
        let nl = self.layers.len();
        let out_size = self.layers[nl - 1].get_output_size();
        if targets.len() < 1 || targets[0].len() != out_size || targets.len() != inputs.len() {
            return Err(NetError::ShapeMismatch);
        }
        proof {
            assert(xs[0] == to_ints(inputs@[0]@));
            assert(ts[0] == to_ints(targets@[0]@));
            assert(train_full(m, xs, ts, epochs as nat, lr) == train_epochs(
                m,
                xs,
                ts,
                lr,
                epochs as nat,
            ));
        }
        let mut losses: Vec<i64> = Vec::new();
        let mut ep: usize = 0;
        while ep < epochs
            invariant
                ep <= epochs,
                net_wf(self@),
                m == old(self)@,
                xs == vec2_ints(inputs@),
                ts == vec2_ints(targets@),
                lr == learning_rate as int,
                xs.len() == inputs@.len(),
                ts.len() == targets@.len(),
                ts.len() == xs.len(),
                xs.len() >= 1,
                train_full(m, xs, ts, epochs as nat, lr) == train_epochs(
                    m,
                    xs,
                    ts,
                    lr,
                    epochs as nat,
                ),
                train_epochs(m, xs, ts, lr, ep as nat) == (
                    self@,
                    to_ints(losses@),
                    Ok::<(), NetError>(()),
                ),
            decreases epochs - ep,
        {
            let ghost m_e = self@;
            let mut total: i64 = 0;
            let mut i: usize = 0;
            while i < inputs.len()
                invariant
                    i <= inputs@.len(),
                    net_wf(self@),
                    m == old(self)@,
                    xs == vec2_ints(inputs@),
                    ts == vec2_ints(targets@),
                    lr == learning_rate as int,
                    xs.len() == inputs@.len(),
                    ts.len() == targets@.len(),
                    ts.len() == xs.len(),
                    xs.len() >= 1,
                    ep < epochs,
                    train_full(m, xs, ts, epochs as nat, lr) == train_epochs(
                        m,
                        xs,
                        ts,
                        lr,
                        epochs as nat,
                    ),
                    train_epochs(m, xs, ts, lr, ep as nat) == (
                        m_e,
                        to_ints(losses@),
                        Ok::<(), NetError>(()),
                    ),
                    train_epoch(m_e, xs, ts, lr, i as nat) == (
                        self@,
                        Ok::<int, NetError>(total as int),
                    ),
                decreases inputs@.len() - i,
            {
                let ghost m_i = self@;
                let ghost acc0 = total as int;
                let fwd = self.forward(&inputs[i]);
                proof {
                    assert(xs[i as int] == to_ints(inputs@[i as int]@));
                    assert(ts[i as int] == to_ints(targets@[i as int]@));
                }
                let pred = match fwd {
                    Ok(p) => p,
                    Err(err) => {
                        proof {
                            assert(train_example(m_i, xs[i as int], ts[i as int], lr, acc0) == (
                                self@,
                                Err::<int, NetError>(err),
                            ));
                            assert(train_epoch(m_e, xs, ts, lr, (i + 1) as nat) == (
                                self@,
                                Err::<int, NetError>(err),
                            ));
                            lemma_train_epoch_poison(m_e, xs, ts, lr, (i + 1) as nat, xs.len());
                            assert(train_epochs(m, xs, ts, lr, (ep + 1) as nat) == (
                                self@,
                                to_ints(losses@),
                                Err::<(), NetError>(err),
                            ));
                            lemma_train_epochs_poison(
                                m,
                                xs,
                                ts,
                                lr,
                                (ep + 1) as nat,
                                epochs as nat,
                            );
                        }
                        return Err(err);
                    },
                };
                let ghost m_f = self@;
                let ghost pd = to_ints(pred@);
                if targets[i].len() != pred.len() {
                    proof {
                        assert(train_example(m_i, xs[i as int], ts[i as int], lr, acc0) == (
                            self@,
                            Err::<int, NetError>(NetError::ShapeMismatch),
                        ));
                        assert(train_epoch(m_e, xs, ts, lr, (i + 1) as nat) == (
                            self@,
                            Err::<int, NetError>(NetError::ShapeMismatch),
                        ));
                        lemma_train_epoch_poison(m_e, xs, ts, lr, (i + 1) as nat, xs.len());
                        assert(train_epochs(m, xs, ts, lr, (ep + 1) as nat) == (
                            self@,
                            to_ints(losses@),
                            Err::<(), NetError>(NetError::ShapeMismatch),
                        ));
                        lemma_train_epochs_poison(m, xs, ts, lr, (ep + 1) as nat, epochs as nat);
                    }
                    return Err(NetError::ShapeMismatch);
                }
                let mut errs: Vec<i64> = Vec::new();
                let tlen = targets[i].len();
                let mut j: usize = 0;
                while j < tlen
                    invariant
                        j <= tlen,
                        net_wf(self@),
                        m == old(self)@,
                        self@ == m_f,
                        xs == vec2_ints(inputs@),
                        ts == vec2_ints(targets@),
                        lr == learning_rate as int,
                        xs.len() == inputs@.len(),
                        ts.len() == targets@.len(),
                        ts.len() == xs.len(),
                        xs.len() >= 1,
                        ep < epochs,
                        i < xs.len(),
                        tlen == targets@[i as int]@.len(),
                        pd == to_ints(pred@),
                        pd.len() == tlen,
                        ts[i as int] == to_ints(targets@[i as int]@),
                        xs[i as int] == to_ints(inputs@[i as int]@),
                        net_forward_full(m_i, xs[i as int]) == (m_f, Ok::<Seq<int>, NetError>(pd)),
                        m_i.error_function == self@.error_function,
                        train_full(m, xs, ts, epochs as nat, lr) == train_epochs(
                            m,
                            xs,
                            ts,
                            lr,
                            epochs as nat,
                        ),
                        train_epochs(m, xs, ts, lr, ep as nat) == (
                            m_e,
                            to_ints(losses@),
                            Ok::<(), NetError>(()),
                        ),
                        train_epoch(m_e, xs, ts, lr, i as nat) == (
                            m_i,
                            Ok::<int, NetError>(acc0),
                        ),
                        example_errors(m_i.error_function, pd, ts[i as int], acc0, j as nat)
                            == Some((to_ints(errs@), total as int)),
                    decreases tlen - j,
                {
                    let d = match self.error_function.derivative(pred[j], targets[i][j]) {
                        Some(d) => d,
                        None => {
                            proof {
                                assert(example_errors(
                                    m_i.error_function,
                                    pd,
                                    ts[i as int],
                                    acc0,
                                    (j + 1) as nat,
                                ) is None);
                                lemma_example_errors_poison(
                                    m_i.error_function,
                                    pd,
                                    ts[i as int],
                                    acc0,
                                    (j + 1) as nat,
                                    ts[i as int].len(),
                                );
                                assert(train_example(m_i, xs[i as int], ts[i as int], lr, acc0)
                                    == (self@, Err::<int, NetError>(NetError::FatalNumericDefect)));
                                assert(train_epoch(m_e, xs, ts, lr, (i + 1) as nat) == (
                                    self@,
                                    Err::<int, NetError>(NetError::FatalNumericDefect),
                                ));
                                lemma_train_epoch_poison(
                                    m_e,
                                    xs,
                                    ts,
                                    lr,
                                    (i + 1) as nat,
                                    xs.len(),
                                );
                                assert(train_epochs(m, xs, ts, lr, (ep + 1) as nat) == (
                                    self@,
                                    to_ints(losses@),
                                    Err::<(), NetError>(NetError::FatalNumericDefect),
                                ));
                                lemma_train_epochs_poison(
                                    m,
                                    xs,
                                    ts,
                                    lr,
                                    (ep + 1) as nat,
                                    epochs as nat,
                                );
                            }
                            return Err(NetError::FatalNumericDefect);
                        },
                    };
                    let lv = match self.error_function.normal(pred[j], targets[i][j]) {
                        Some(lv) => lv,
                        None => {
                            proof {
                                assert(example_errors(
                                    m_i.error_function,
                                    pd,
                                    ts[i as int],
                                    acc0,
                                    (j + 1) as nat,
                                ) is None);
                                lemma_example_errors_poison(
                                    m_i.error_function,
                                    pd,
                                    ts[i as int],
                                    acc0,
                                    (j + 1) as nat,
                                    ts[i as int].len(),
                                );
                                assert(train_example(m_i, xs[i as int], ts[i as int], lr, acc0)
                                    == (self@, Err::<int, NetError>(NetError::FatalNumericDefect)));
                                assert(train_epoch(m_e, xs, ts, lr, (i + 1) as nat) == (
                                    self@,
                                    Err::<int, NetError>(NetError::FatalNumericDefect),
                                ));
                                lemma_train_epoch_poison(
                                    m_e,
                                    xs,
                                    ts,
                                    lr,
                                    (i + 1) as nat,
                                    xs.len(),
                                );
                                assert(train_epochs(m, xs, ts, lr, (ep + 1) as nat) == (
                                    self@,
                                    to_ints(losses@),
                                    Err::<(), NetError>(NetError::FatalNumericDefect),
                                ));
                                lemma_train_epochs_poison(
                                    m,
                                    xs,
                                    ts,
                                    lr,
                                    (ep + 1) as nat,
                                    epochs as nat,
                                );
                            }
                            return Err(NetError::FatalNumericDefect);
                        },
                    };
                    let t2 = match fx_add(total, lv) {
                        Some(t2) => t2,
                        None => {
                            proof {
                                assert(example_errors(
                                    m_i.error_function,
                                    pd,
                                    ts[i as int],
                                    acc0,
                                    (j + 1) as nat,
                                ) is None);
                                lemma_example_errors_poison(
                                    m_i.error_function,
                                    pd,
                                    ts[i as int],
                                    acc0,
                                    (j + 1) as nat,
                                    ts[i as int].len(),
                                );
                                assert(train_example(m_i, xs[i as int], ts[i as int], lr, acc0)
                                    == (self@, Err::<int, NetError>(NetError::FatalNumericDefect)));
                                assert(train_epoch(m_e, xs, ts, lr, (i + 1) as nat) == (
                                    self@,
                                    Err::<int, NetError>(NetError::FatalNumericDefect),
                                ));
                                lemma_train_epoch_poison(
                                    m_e,
                                    xs,
                                    ts,
                                    lr,
                                    (i + 1) as nat,
                                    xs.len(),
                                );
                                assert(train_epochs(m, xs, ts, lr, (ep + 1) as nat) == (
                                    self@,
                                    to_ints(losses@),
                                    Err::<(), NetError>(NetError::FatalNumericDefect),
                                ));
                                lemma_train_epochs_poison(
                                    m,
                                    xs,
                                    ts,
                                    lr,
                                    (ep + 1) as nat,
                                    epochs as nat,
                                );
                            }
                            return Err(NetError::FatalNumericDefect);
                        },
                    };
                    let ghost errs_old = errs@;
                    errs.push(d);
                    total = t2;
                    proof {
                        assert(to_ints(errs@) =~= to_ints(errs_old).push(d as int));
                    }
                    j = j + 1;
                }
                let bwd = self.backward(&errs, learning_rate);
                match bwd {
                    Ok(_) => {},
                    Err(err) => {
                        proof {
                            assert(train_example(m_i, xs[i as int], ts[i as int], lr, acc0) == (
                                self@,
                                Err::<int, NetError>(err),
                            ));
                            assert(train_epoch(m_e, xs, ts, lr, (i + 1) as nat) == (
                                self@,
                                Err::<int, NetError>(err),
                            ));
                            lemma_train_epoch_poison(m_e, xs, ts, lr, (i + 1) as nat, xs.len());
                            assert(train_epochs(m, xs, ts, lr, (ep + 1) as nat) == (
                                self@,
                                to_ints(losses@),
                                Err::<(), NetError>(err),
                            ));
                            lemma_train_epochs_poison(
                                m,
                                xs,
                                ts,
                                lr,
                                (ep + 1) as nat,
                                epochs as nat,
                            );
                        }
                        return Err(err);
                    },
                }
                proof {
                    assert(train_example(m_i, xs[i as int], ts[i as int], lr, acc0) == (
                        self@,
                        Ok::<int, NetError>(total as int),
                    ));
                    assert(train_epoch(m_e, xs, ts, lr, (i + 1) as nat) == (
                        self@,
                        Ok::<int, NetError>(total as int),
                    ));
                }
                i = i + 1;
            }
            let ghost losses_old = losses@;
            losses.push(total);
            proof {
                assert(to_ints(losses@) =~= to_ints(losses_old).push(total as int));
                assert(train_epochs(m, xs, ts, lr, (ep + 1) as nat) == (
                    self@,
                    to_ints(losses@),
                    Ok::<(), NetError>(()),
                ));
            }
            ep = ep + 1;
        }
        Ok(losses)
    }
}


/// The per-example error vector and running loss total: for each output
/// `j`, the loss derivative is collected and the loss itself is added to
/// the total. `None` once any step is undefined or leaves the range.
pub open spec fn example_errors(
    ef: ErrorFunction,
    pred: Seq<int>,
    tgt: Seq<int>,
    acc: int,
    j: nat,
) -> Option<(Seq<int>, int)>
    decreases j,
{
    if j == 0 {
        Some((Seq::<int>::empty(), acc))
    } else {
        match example_errors(ef, pred, tgt, acc, (j - 1) as nat) {
            None => None,
            Some(st) => match err_deriv_s(ef, pred[j - 1], tgt[j - 1]) {
                None => None,
                Some(d) => match err_normal_s(ef, pred[j - 1], tgt[j - 1]) {
                    None => None,
                    Some(l) => match fx_add_s(st.1, l) {
                        None => None,
                        Some(t2) => Some((st.0.push(d), t2)),
                    },
                },
            },
        }
    }
}

proof fn lemma_example_errors_poison(
    ef: ErrorFunction,
    pred: Seq<int>,
    tgt: Seq<int>,
    acc: int,
    j1: nat,
    j2: nat,
)
    requires
        j1 <= j2,
        example_errors(ef, pred, tgt, acc, j1) is None,
    ensures
        example_errors(ef, pred, tgt, acc, j2) is None,
    decreases j2,
{
    if j2 > j1 {
        lemma_example_errors_poison(ef, pred, tgt, acc, j1, (j2 - 1) as nat);
    }
}

/// One training step: forward, check the target length, build the error
/// vector while summing the loss into `acc`, then backward.
pub open spec fn train_example(nm: NetModel, x: Seq<int>, t: Seq<int>, lr: int, acc: int) -> (
    NetModel,
    Result<int, NetError>,
)
    recommends
        nm.layers.len() > 0,
{
    let fwd = net_forward_full(nm, x);
    match fwd.1 {
        Err(e) => (fwd.0, Err(e)),
        Ok(pred) => if t.len() != pred.len() {
            (fwd.0, Err(NetError::ShapeMismatch))
        } else {
            match example_errors(nm.error_function, pred, t, acc, t.len()) {
                None => (fwd.0, Err(NetError::FatalNumericDefect)),
                Some(st) => {
                    let bwd = net_backward_full(fwd.0, st.0, lr);
                    match bwd.1 {
                        Err(e) => (bwd.0, Err(e)),
                        Ok(_) => (bwd.0, Ok(st.1)),
                    }
                },
            }
        },
    }
}

/// The first `i` examples of one epoch, threading the loss total.
pub open spec fn train_epoch(
    nm: NetModel,
    xs: Seq<Seq<int>>,
    ts: Seq<Seq<int>>,
    lr: int,
    i: nat,
) -> (NetModel, Result<int, NetError>)
    decreases i,
{
    if i == 0 {
        (nm, Ok(0))
    } else {
        let prev = train_epoch(nm, xs, ts, lr, (i - 1) as nat);
        match prev.1 {
            Err(e) => prev,
            Ok(acc) => train_example(prev.0, xs[i - 1], ts[i - 1], lr, acc),
        }
    }
}

proof fn lemma_train_epoch_poison(
    nm: NetModel,
    xs: Seq<Seq<int>>,
    ts: Seq<Seq<int>>,
    lr: int,
    i1: nat,
    i2: nat,
)
    requires
        i1 <= i2,
        train_epoch(nm, xs, ts, lr, i1).1 is Err,
    ensures
        train_epoch(nm, xs, ts, lr, i2) == train_epoch(nm, xs, ts, lr, i1),
    decreases i2,
{
    if i2 > i1 {
        lemma_train_epoch_poison(nm, xs, ts, lr, i1, (i2 - 1) as nat);
    }
}

/// The first `e` epochs: the network state, the per-epoch loss totals,
/// and the first failure if one occurred.
pub open spec fn train_epochs(
    nm: NetModel,
    xs: Seq<Seq<int>>,
    ts: Seq<Seq<int>>,
    lr: int,
    e: nat,
) -> (NetModel, Seq<int>, Result<(), NetError>)
    decreases e,
{
    if e == 0 {
        (nm, Seq::<int>::empty(), Ok(()))
    } else {
        let prev = train_epochs(nm, xs, ts, lr, (e - 1) as nat);
        match prev.2 {
            Err(_) => prev,
            Ok(_) => {
                let ep = train_epoch(prev.0, xs, ts, lr, xs.len());
                match ep.1 {
                    Err(err) => (ep.0, prev.1, Err(err)),
                    Ok(tot) => (ep.0, prev.1.push(tot), Ok(())),
                }
            },
        }
    }
}

proof fn lemma_train_epochs_poison(
    nm: NetModel,
    xs: Seq<Seq<int>>,
    ts: Seq<Seq<int>>,
    lr: int,
    e1: nat,
    e2: nat,
)
    requires
        e1 <= e2,
        train_epochs(nm, xs, ts, lr, e1).2 is Err,
    ensures
        train_epochs(nm, xs, ts, lr, e2) == train_epochs(nm, xs, ts, lr, e1),
    decreases e2,
{
    if e2 > e1 {
        lemma_train_epochs_poison(nm, xs, ts, lr, e1, (e2 - 1) as nat);
    }
}

/// What a train call does: the dataset shape checks (the first example of
/// each kind is held against the network's end sizes, and the counts must
/// agree), then `epochs` full passes.
pub open spec fn train_full(
    nm: NetModel,
    xs: Seq<Seq<int>>,
    ts: Seq<Seq<int>>,
    epochs: nat,
    lr: int,
) -> (NetModel, Seq<int>, Result<(), NetError>)
    recommends
        nm.layers.len() > 0,
{
    if xs.len() < 1 || xs[0].len() != layer_in_size(nm.layers[0]) {
        (nm, Seq::<int>::empty(), Err(NetError::ShapeMismatch))
    } else if ts.len() < 1 || ts[0].len() != layer_out_size(nm.layers[nm.layers.len() - 1])
        || ts.len() != xs.len() {
        (nm, Seq::<int>::empty(), Err(NetError::ShapeMismatch))
    } else {
        train_epochs(nm, xs, ts, lr, epochs)
    }
}

/// The mathematical view of a dataset.
pub open spec fn vec2_ints(s: Seq<Vec<i64>>) -> Seq<Seq<int>> {
    s.map_values(|v: Vec<i64>| to_ints(v@))
}


/// Inference is deterministic: a forward pass is a function of the stored
/// parameters and the input alone, with no hidden source of randomness, so
/// two passes from the same state on the same input agree on the new state
/// and on the result.
pub proof fn lemma_forward_deterministic(
    nm: NetModel,
    x: Seq<int>,
    r1: (NetModel, Result<Seq<int>, NetError>),
    r2: (NetModel, Result<Seq<int>, NetError>),
)
    requires
        r1 == net_forward_full(nm, x),
        r2 == net_forward_full(nm, x),
    ensures
        r1 == r2,
{
}

/// A wrong-length vector at either end of the network is rejected before
/// any layer runs: the network is unchanged and the call reports the
/// mismatch.
pub proof fn lemma_net_shape_mismatch(nm: NetModel, x: Seq<int>, e: Seq<int>, lr: int)
    requires
        nm.layers.len() > 0,
    ensures
        x.len() != layer_in_size(nm.layers[0]) ==> net_forward_full(nm, x) == (
            nm,
            Err::<Seq<int>, NetError>(NetError::ShapeMismatch),
        ),
        e.len() != layer_out_size(nm.layers[nm.layers.len() - 1]) ==> net_backward_full(
            nm,
            e,
            lr,
        ) == (nm, Err::<Seq<int>, NetError>(NetError::ShapeMismatch)),
{
}

} // verus!
