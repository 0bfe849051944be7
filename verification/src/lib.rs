//! Exact evaluation and uniform sampling of Bézier curves.
//!
//! A Bézier curve of degree `d` over control points `p_0, ..., p_d` has the
//! value `sum_i C(d, i) * (1 - t)^(d - i) * t^i * p_i` at parameter `t`.
//! This crate evaluates that sum in exact integer arithmetic: the parameter
//! is a rational number `t_num / t_den`, and each curve value is returned as
//! an exact rational `value_num / value_den` with `value_den == t_den^d`.

pub mod arith;
pub mod combinatorics;
pub mod curve;
pub mod vec2;
