//! Points and vectors of the plane, with each component rounded at each step.

use crate::float::Float;
use crate::scalar::F32;
use vstd::prelude::*;

verus! {

/// The vector from `b` to `a`.
pub open spec fn difference(a: (Float, Float), b: (Float, Float)) -> (Float, Float) {
    (a.0.minus(b.0), a.1.minus(b.1))
}

/// The sum of two vectors.
pub open spec fn sum(a: (Float, Float), b: (Float, Float)) -> (Float, Float) {
    (a.0.plus(b.0), a.1.plus(b.1))
}

/// A vector with each component multiplied.
pub open spec fn scaled(v: (Float, Float), factor: Float) -> (Float, Float) {
    (v.0.times(factor), v.1.times(factor))
}

/// A vector with each component divided.
pub open spec fn shrunk(v: (Float, Float), divisor: Float) -> (Float, Float) {
    (v.0.over(divisor), v.1.over(divisor))
}

/// The scalar product.
pub open spec fn dot(a: (Float, Float), b: (Float, Float)) -> Float {
    a.0.times(b.0).plus(a.1.times(b.1))
}

/// The length of a vector.
pub open spec fn norm(v: (Float, Float)) -> Float {
    dot(v, v).sqrt()
}

/// A vector turned by a quarter.
pub open spec fn turned(v: (Float, Float)) -> (Float, Float) {
    (v.1.negated(), v.0)
}

/// The vector that is zero.
pub open spec fn origin() -> (Float, Float) {
    (Float::zero(), Float::zero())
}

pub(crate) fn difference_of(a: (F32, F32), b: (F32, F32)) -> (result: (F32, F32))
    ensures
        result@ == difference(a@, b@),
{
    (a.0.minus(b.0), a.1.minus(b.1))
}

pub(crate) fn sum_of(a: (F32, F32), b: (F32, F32)) -> (result: (F32, F32))
    ensures
        result@ == sum(a@, b@),
{
    (a.0.plus(b.0), a.1.plus(b.1))
}

pub(crate) fn scaled_by(v: (F32, F32), factor: F32) -> (result: (F32, F32))
    ensures
        result@ == scaled(v@, factor@),
{
    (v.0.times(factor), v.1.times(factor))
}

pub(crate) fn shrunk_by(v: (F32, F32), divisor: F32) -> (result: (F32, F32))
    ensures
        result@ == shrunk(v@, divisor@),
{
    (v.0.over(divisor), v.1.over(divisor))
}

pub(crate) fn dot_of(a: (F32, F32), b: (F32, F32)) -> (result: F32)
    ensures
        result@ == dot(a@, b@),
{
    a.0.times(b.0).plus(a.1.times(b.1))
}

pub(crate) fn norm_of(v: (F32, F32)) -> (result: F32)
    ensures
        result@ == norm(v@),
{
    dot_of(v, v).sqrt()
}

pub(crate) fn turned_of(v: (F32, F32)) -> (result: (F32, F32))
    ensures
        result@ == turned(v@),
{
    (v.1.negated(), v.0)
}

pub(crate) fn origin_point() -> (result: (F32, F32))
    ensures
        result@ == origin(),
{
    (F32::zero(), F32::zero())
}

} // verus!
