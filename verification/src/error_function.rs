//! Per-output loss functions: squared error and classification log-loss.
//!
//! `normal` is the loss itself and `derivative` seeds backpropagation.
//! A `None` result is a fatal numeric defect: either an argument violated
//! the function's precondition (log-loss wants a prediction in [0, 1] and a
//! one-hot target) or a value left the representable range.

use crate::fixed::{
    div_trunc, fx_add, fx_add_s, fx_mul, fx_mul_s, fx_sub, fx_sub_s, lemma_tdiv_le, neg_ln,
    neg_ln_s, opt_int, tdiv, SCALE,
};
use vstd::prelude::*;

verus! {

pub open spec fn mse_normal_s(x: int, y: int) -> Option<int> {
    match fx_sub_s(x, y) {
        None => None,
        Some(d) => fx_mul_s(d, d),
    }
}

pub open spec fn mse_deriv_s(x: int, y: int) -> Option<int> {
    match fx_sub_s(x, y) {
        None => None,
        Some(d) => fx_add_s(d, d),
    }
}

pub open spec fn log_err_normal_s(x: int, y: int) -> Option<int> {
    if x < 0 || x > SCALE as int {
        None
    } else if y == SCALE as int {
        if x == 0 {
            None
        } else {
            Some(neg_ln_s(x))
        }
    } else if y == 0 {
        if x == SCALE as int {
            None
        } else {
            Some(neg_ln_s((SCALE as int) - x))
        }
    } else {
        None
    }
}

pub open spec fn log_err_deriv_s(x: int, y: int) -> Option<int> {
    if x < 0 || x > SCALE as int {
        None
    } else if y == SCALE as int {
        if x == 0 {
            None
        } else {
            Some(-tdiv((SCALE as int) * (SCALE as int), x))
        }
    } else if y == 0 {
        if x == SCALE as int {
            None
        } else {
            Some(tdiv((SCALE as int) * (SCALE as int), (SCALE as int) - x))
        }
    } else {
        None
    }
}

/// Squared error: (prediction - target)^2, with derivative
/// 2 (prediction - target). Defined wherever the arithmetic fits.
#[derive(Clone, Copy, PartialEq, Eq, Structural)]
pub struct MSE;

impl MSE {
    pub fn normal(&self, x: i64, y: i64) -> (r: Option<i64>)
        ensures
            opt_int(r) == mse_normal_s(x as int, y as int),
    {
        match fx_sub(x, y) {
            None => None,
            Some(d) => fx_mul(d, d),
        }
    }

    pub fn derivative(&self, x: i64, y: i64) -> (r: Option<i64>)
        ensures
            opt_int(r) == mse_deriv_s(x as int, y as int),
    {
        match fx_sub(x, y) {
            None => None,
            Some(d) => fx_add(d, d),
        }
    }
}

/// Classification log-loss: -ln(prediction) for a target of one,
/// -ln(1 - prediction) for a target of zero. The prediction must lie in
/// [0, 1] and the target must be exactly zero or one; any other argument
/// is a contract violation. A prediction at the wrong endpoint has
/// unbounded loss; both cases are reported as `None`.
#[derive(Clone, Copy, PartialEq, Eq, Structural)]
pub struct LogErr;

impl LogErr {
    pub fn normal(&self, x: i64, y: i64) -> (r: Option<i64>)
        ensures
            opt_int(r) == log_err_normal_s(x as int, y as int),
    {
        if x < 0 || x > SCALE {
            None
        } else if y == SCALE {
            if x == 0 {
                None
            } else {
                Some(neg_ln(x))
            }
        } else if y == 0 {
            if x == SCALE {
                None
            } else {
                Some(neg_ln(SCALE - x))
            }
        } else {
            None
        }
    }

    pub fn derivative(&self, x: i64, y: i64) -> (r: Option<i64>)
        ensures
            opt_int(r) == log_err_deriv_s(x as int, y as int),
    {
        if x < 0 || x > SCALE {
            None
        } else if y == SCALE {
            if x == 0 {
                None
            } else {
                proof {
                    lemma_recip_bound(x as int);
                }
                let q = div_trunc((SCALE as i128) * (SCALE as i128), x as i128) as i64;
                Some(-q)
            }
        } else if y == 0 {
            if x == SCALE {
                None
            } else {
                proof {
                    lemma_recip_bound((SCALE as int) - x);
                }
                let q = div_trunc((SCALE as i128) * (SCALE as i128), (SCALE - x) as i128) as i64;
                Some(q)
            }
        } else {
            None
        }
    }
}

/// 1/p in fixed point is at most SCALE * SCALE for p >= 1.
proof fn lemma_recip_bound(p: int)
    requires
        1 <= p,
    ensures
        0 <= tdiv((SCALE as int) * (SCALE as int), p) <= (SCALE as int) * (SCALE as int),
{
    let ss = (SCALE as int) * (SCALE as int);
    assert(ss <= p * ss) by (nonlinear_arith)
        requires
            p >= 1 && ss >= 0,
    ;
    lemma_tdiv_le(ss, p, ss);
}

/// The closed set of loss functions a network can own.
#[derive(Clone, Copy, PartialEq, Eq, Structural)]
pub enum ErrorFunction {
    MSE(MSE),
    LogErr(LogErr),
}

pub open spec fn err_normal_s(e: ErrorFunction, x: int, y: int) -> Option<int> {
    match e {
        ErrorFunction::MSE(_) => mse_normal_s(x, y),
        ErrorFunction::LogErr(_) => log_err_normal_s(x, y),
    }
}

pub open spec fn err_deriv_s(e: ErrorFunction, x: int, y: int) -> Option<int> {
    match e {
        ErrorFunction::MSE(_) => mse_deriv_s(x, y),
        ErrorFunction::LogErr(_) => log_err_deriv_s(x, y),
    }
}

impl ErrorFunction {
    pub fn normal(&self, x: i64, y: i64) -> (r: Option<i64>)
        ensures
            opt_int(r) == err_normal_s(*self, x as int, y as int),
    {
        match self {
            ErrorFunction::MSE(e) => e.normal(x, y),
            ErrorFunction::LogErr(e) => e.normal(x, y),
        }
    }

    pub fn derivative(&self, x: i64, y: i64) -> (r: Option<i64>)
        ensures
            opt_int(r) == err_deriv_s(*self, x as int, y as int),
    {
        match self {
            ErrorFunction::MSE(e) => e.derivative(x, y),
            ErrorFunction::LogErr(e) => e.derivative(x, y),
        }
    }
}

} // verus!
