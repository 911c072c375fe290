//! Elementary functions that a caller supplies.
//!
//! Logarithms and powers are not correctly rounded everywhere, so what they
//! give is not a property of the arithmetic here. A method that needs one
//! takes it as an argument; its contract speaks of the values it returns.
use vstd::prelude::*;
use crate::float::binary32::Binary32;
use crate::float::binary64::Binary64;

verus! {

/// Whether `f` answers every argument, and each always alike.
pub open spec fn is_function<F: Fn(Binary32) -> Binary32>(f: F) -> bool {
    &&& forall|x: Binary32| call_requires(f, (x,))
    &&& forall|x: Binary32, a: Binary32, b: Binary32|
        #![trigger call_ensures(f, (x,), a), call_ensures(f, (x,), b)]
        call_ensures(f, (x,), a) && call_ensures(f, (x,), b) ==> a == b
}

/// What `f` gives for `x`.
pub open spec fn image<F: Fn(Binary32) -> Binary32>(f: F, x: Binary32) -> Binary32 {
    choose|r: Binary32| call_ensures(f, (x,), r)
}

/// Calls `f`.
pub fn apply<F: Fn(Binary32) -> Binary32>(f: &F, x: Binary32) -> (r: Binary32)
    requires
        is_function(*f),
    ensures
        r == image(*f, x),
{
    f(x)
}

/// Whether `f` answers every pair of arguments, and each always alike.
pub open spec fn is_function2<F: Fn(Binary64, Binary64) -> Binary64>(f: F) -> bool {
    &&& forall|x: Binary64, y: Binary64| call_requires(f, (x, y))
    &&& forall|x: Binary64, y: Binary64, a: Binary64, b: Binary64|
        #![trigger call_ensures(f, (x, y), a), call_ensures(f, (x, y), b)]
        call_ensures(f, (x, y), a) && call_ensures(f, (x, y), b) ==> a == b
}

/// What `f` gives for `x` and `y`.
pub open spec fn image2<F: Fn(Binary64, Binary64) -> Binary64>(
    f: F,
    x: Binary64,
    y: Binary64,
) -> Binary64 {
    choose|r: Binary64| call_ensures(f, (x, y), r)
}

/// Calls `f`.
pub fn apply2<F: Fn(Binary64, Binary64) -> Binary64>(f: &F, x: Binary64, y: Binary64) -> (r:
    Binary64)
    requires
        is_function2(*f),
    ensures
        r == image2(*f, x, y),
{
    f(x, y)
}


/// Whether `f` answers every argument, and each always alike.
pub open spec fn is_function64<F: Fn(Binary64) -> Binary64>(f: F) -> bool {
    &&& forall|x: Binary64| call_requires(f, (x,))
    &&& forall|x: Binary64, a: Binary64, b: Binary64|
        #![trigger call_ensures(f, (x,), a), call_ensures(f, (x,), b)]
        call_ensures(f, (x,), a) && call_ensures(f, (x,), b) ==> a == b
}

/// What `f` gives for `x`.
pub open spec fn image64<F: Fn(Binary64) -> Binary64>(f: F, x: Binary64) -> Binary64 {
    choose|r: Binary64| call_ensures(f, (x,), r)
}

/// Calls `f`.
pub fn apply64<F: Fn(Binary64) -> Binary64>(f: &F, x: Binary64) -> (r: Binary64)
    requires
        is_function64(*f),
    ensures
        r == image64(*f, x),
{
    f(x)
}

} // verus!
