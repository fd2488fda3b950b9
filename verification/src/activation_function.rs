//! Elementwise nonlinearities: leaky rectifier and logistic sigmoid.
//!
//! Each activation offers `normal` (the function itself) and `derivative`,
//! evaluated at the pre-activation value so that backpropagation can apply
//! the chain rule. Both are total over the fixed-point range.

use crate::fixed::{
    div_trunc, exp_fx, exp_fx_s, lemma_exp_fx_s_range, lemma_tdiv_le, tdiv, SCALE,
};
use vstd::prelude::*;

verus! {

/// Leak applied to negative inputs: 0.01 in fixed-point units.
pub const LEAK: i64 = 10_000_000;

pub open spec fn leaky_relu_s(x: int) -> int {
    if x >= 0 {
        x
    } else {
        tdiv(x, 100)
    }
}

pub open spec fn leaky_relu_deriv_s(x: int) -> int {
    if x >= 0 {
        SCALE as int
    } else {
        LEAK as int
    }
}

pub open spec fn sigmoid_s(x: int) -> int {
    if x >= 0 {
        tdiv((SCALE as int) * (SCALE as int), (SCALE as int) + exp_fx_s(-x))
    } else {
        tdiv(exp_fx_s(x) * (SCALE as int), (SCALE as int) + exp_fx_s(x))
    }
}

pub open spec fn sigmoid_deriv_s(x: int) -> int {
    let s = sigmoid_s(x);
    tdiv(s * ((SCALE as int) - s), SCALE as int)
}

/// The rectifier that keeps a small slope on the negative side:
/// x for x >= 0, x/100 below.
#[derive(Clone, Copy, PartialEq, Eq, Structural)]
pub struct LeakyRelu;

impl LeakyRelu {
    pub fn normal(&self, x: i64) -> (r: i64)
        ensures
            r == leaky_relu_s(x as int),
    {
        if x >= 0 {
            x
        } else {
            proof {
                crate::fixed::lemma_tdiv_bounds(x as int, 100);
            }
            div_trunc(x as i128, 100) as i64
        }
    }

    pub fn derivative(&self, x: i64) -> (r: i64)
        ensures
            r == leaky_relu_deriv_s(x as int),
    {
        if x >= 0 {
            SCALE
        } else {
            LEAK
        }
    }
}

/// The logistic function 1 / (1 + e^-x), computed through the fixed-point
/// exponential of a nonpositive argument.
#[derive(Clone, Copy, PartialEq, Eq, Structural)]
pub struct Sigmoid;

impl Sigmoid {
    pub fn normal(&self, x: i64) -> (r: i64)
        ensures
            r == sigmoid_s(x as int),
            0 <= r <= SCALE,
    {
        if x >= 0 {
            let e = exp_fx(-x);
            let p: i128 = (SCALE as i128) * (SCALE as i128);
            proof {
                assert((1_000_000_000int) * 1_000_000_000 <= (1_000_000_000 + e as int) * 1_000_000_000)
                    by (nonlinear_arith)
                    requires
                        e >= 0,
                ;
                lemma_tdiv_le(p as int, (SCALE + e) as int, SCALE as int);
            }
            div_trunc(p, (SCALE + e) as i128) as i64
        } else {
            let e = exp_fx(x);
            let p: i128 = (e as i128) * (SCALE as i128);
            proof {
                assert((e as int) * 1_000_000_000 <= (1_000_000_000 + e as int) * 1_000_000_000)
                    by (nonlinear_arith)
                    requires
                        e >= 0,
                ;
                lemma_tdiv_le(p as int, (SCALE + e) as int, SCALE as int);
            }
            div_trunc(p, (SCALE + e) as i128) as i64
        }
    }

    pub fn derivative(&self, x: i64) -> (r: i64)
        ensures
            r == sigmoid_deriv_s(x as int),
            0 <= r <= SCALE,
    {
        let s = self.normal(x);
        proof {
            assert(0 <= (s as int) * (1_000_000_000 - s as int) <= 1_000_000_000 * 1_000_000_000)
                by (nonlinear_arith)
                requires
                    0 <= s as int <= 1_000_000_000,
            ;
        }
        let p: i128 = (s as i128) * ((SCALE - s) as i128);
        proof {
            lemma_tdiv_le(p as int, SCALE as int, SCALE as int);
        }
        div_trunc(p, SCALE as i128) as i64
    }
}

/// The closed set of activations a dense layer can own.
#[derive(Clone, Copy, PartialEq, Eq, Structural)]
pub enum ActivationFunction {
    LeakyRelu(LeakyRelu),
    Sigmoid(Sigmoid),
}

pub open spec fn act_normal_s(a: ActivationFunction, x: int) -> int {
    match a {
        ActivationFunction::LeakyRelu(_) => leaky_relu_s(x),
        ActivationFunction::Sigmoid(_) => sigmoid_s(x),
    }
}

pub open spec fn act_deriv_s(a: ActivationFunction, x: int) -> int {
    match a {
        ActivationFunction::LeakyRelu(_) => leaky_relu_deriv_s(x),
        ActivationFunction::Sigmoid(_) => sigmoid_deriv_s(x),
    }
}

/// Activation derivatives stay within the unit interval.
pub proof fn lemma_act_deriv_range(a: ActivationFunction, x: int)
    ensures
        0 <= act_deriv_s(a, x) <= SCALE,
{
    match a {
        ActivationFunction::LeakyRelu(_) => {},
        ActivationFunction::Sigmoid(_) => {
            lemma_sigmoid_s_range(x);
            let s = sigmoid_s(x);
            assert(s * ((SCALE as int) - s) <= 1_000_000_000 * 1_000_000_000) by (nonlinear_arith)
                requires
                    0 <= s <= 1_000_000_000,
            ;
            assert(s * ((SCALE as int) - s) >= 0) by (nonlinear_arith)
                requires
                    0 <= s <= 1_000_000_000,
            ;
            lemma_tdiv_le(s * ((SCALE as int) - s), SCALE as int, SCALE as int);
        },
    }
}

/// The sigmoid stays within the unit interval.
pub proof fn lemma_sigmoid_s_range(x: int)
    ensures
        0 <= sigmoid_s(x) <= SCALE,
{
    let s = SCALE as int;
    if x >= 0 {
        lemma_exp_fx_s_range(-x);
        let e = exp_fx_s(-x);
        assert(s * s <= (s + e) * s) by (nonlinear_arith)
            requires
                e >= 0 && s == 1_000_000_000,
        ;
        lemma_tdiv_le(s * s, s + e, s);
    } else {
        lemma_exp_fx_s_range(x);
        let e = exp_fx_s(x);
        assert(e * s <= (s + e) * s) by (nonlinear_arith)
            requires
                e >= 0 && s == 1_000_000_000,
        ;
        assert(e * s >= 0) by (nonlinear_arith)
            requires
                e >= 0 && s > 0,
        ;
        lemma_tdiv_le(e * s, s + e, s);
    }
}

impl ActivationFunction {
    pub fn normal(&self, x: i64) -> (r: i64)
        ensures
            r == act_normal_s(*self, x as int),
    {
        match self {
            ActivationFunction::LeakyRelu(a) => a.normal(x),
            ActivationFunction::Sigmoid(a) => a.normal(x),
        }
    }

    pub fn derivative(&self, x: i64) -> (r: i64)
        ensures
            r == act_deriv_s(*self, x as int),
            0 <= r <= SCALE,
    {
        proof {
            lemma_act_deriv_range(*self, x as int);
        }
        match self {
            ActivationFunction::LeakyRelu(a) => a.derivative(x),
            ActivationFunction::Sigmoid(a) => a.derivative(x),
        }
    }
}

} // verus!
