//! A 64-bit integer element type with total, exactly specified arithmetic: sums, differences
//! and products wrap around, and division by zero gives zero. With it every value clause of
//! the kernels, layers, graph and network applies.
use vstd::prelude::*;
use vstd::std_specs::ops::AddSpecImpl;
use vstd::std_specs::ops::SubSpecImpl;
use vstd::std_specs::ops::MulSpecImpl;
use vstd::std_specs::ops::DivSpecImpl;
use vstd::std_specs::cmp::PartialOrdSpecImpl;
use crate::compute::scalar::{arith_total, exact_arith, exact_order};

verus! {

/// A signed 64-bit integer with wrapping `+`, `-`, `*` and a division that gives zero for a
/// zero divisor (and wraps for `i64::MIN / -1`).
#[derive(Clone, Copy, Debug, PartialEq, Eq, Structural)]
pub struct Wrap64 {
    pub v: i64,
}

/// Quotient of `a` by `b`, rounded toward zero, wrapping for `i64::MIN / -1`; zero when `b`
/// is zero.
pub open spec fn wrap_div(a: i64, b: i64) -> i64 {
    if b == 0 {
        0
    } else if a == i64::MIN && b == -1 {
        i64::MIN
    } else {
        match a.checked_div(b) {
            Some(q) => q,
            None => 0,
        }
    }
}

impl core::ops::Add for Wrap64 {
    type Output = Wrap64;

    fn add(self, rhs: Wrap64) -> (r: Wrap64) {
        Wrap64 { v: self.v.wrapping_add(rhs.v) }
    }
}

impl AddSpecImpl for Wrap64 {
    open spec fn obeys_add_spec() -> bool {
        true
    }

    open spec fn add_req(self, rhs: Wrap64) -> bool {
        true
    }

    open spec fn add_spec(self, rhs: Wrap64) -> Wrap64 {
        Wrap64 { v: self.v.wrapping_add(rhs.v) }
    }
}

impl core::ops::Sub for Wrap64 {
    type Output = Wrap64;

    fn sub(self, rhs: Wrap64) -> (r: Wrap64) {
        Wrap64 { v: self.v.wrapping_sub(rhs.v) }
    }
}

impl SubSpecImpl for Wrap64 {
    open spec fn obeys_sub_spec() -> bool {
        true
    }

    open spec fn sub_req(self, rhs: Wrap64) -> bool {
        true
    }

    open spec fn sub_spec(self, rhs: Wrap64) -> Wrap64 {
        Wrap64 { v: self.v.wrapping_sub(rhs.v) }
    }
}

impl core::ops::Mul for Wrap64 {
    type Output = Wrap64;

    fn mul(self, rhs: Wrap64) -> (r: Wrap64) {
        Wrap64 { v: self.v.wrapping_mul(rhs.v) }
    }
}

impl MulSpecImpl for Wrap64 {
    open spec fn obeys_mul_spec() -> bool {
        true
    }

    open spec fn mul_req(self, rhs: Wrap64) -> bool {
        true
    }

    open spec fn mul_spec(self, rhs: Wrap64) -> Wrap64 {
        Wrap64 { v: self.v.wrapping_mul(rhs.v) }
    }
}

impl core::ops::Div for Wrap64 {
    type Output = Wrap64;

    fn div(self, rhs: Wrap64) -> (r: Wrap64) {
        if rhs.v == 0 {
            Wrap64 { v: 0 }
        } else if self.v == i64::MIN && rhs.v == -1 {
            Wrap64 { v: i64::MIN }
        } else {
            match self.v.checked_div(rhs.v) {
                Some(q) => Wrap64 { v: q },
                None => Wrap64 { v: 0 },
            }
        }
    }
}

impl DivSpecImpl for Wrap64 {
    open spec fn obeys_div_spec() -> bool {
        true
    }

    open spec fn div_req(self, rhs: Wrap64) -> bool {
        true
    }

    open spec fn div_spec(self, rhs: Wrap64) -> Wrap64 {
        Wrap64 { v: wrap_div(self.v, rhs.v) }
    }
}

impl PartialOrd for Wrap64 {
    fn partial_cmp(&self, other: &Wrap64) -> (r: Option<core::cmp::Ordering>) {
        if self.v < other.v {
            Some(core::cmp::Ordering::Less)
        } else if self.v == other.v {
            Some(core::cmp::Ordering::Equal)
        } else {
            Some(core::cmp::Ordering::Greater)
        }
    }
}

impl PartialOrdSpecImpl for Wrap64 {
    open spec fn obeys_partial_cmp_spec() -> bool {
        true
    }

    open spec fn partial_cmp_spec(&self, other: &Wrap64) -> Option<core::cmp::Ordering> {
        if self.v < other.v {
            Some(core::cmp::Ordering::Less)
        } else if self.v == other.v {
            Some(core::cmp::Ordering::Equal)
        } else {
            Some(core::cmp::Ordering::Greater)
        }
    }
}

/// `Wrap64` meets the preconditions of the numeric functions and computes exactly what the
/// operator specifications say, so their value clauses apply to it.
pub proof fn lemma_wrap64_exact()
    ensures
        arith_total::<Wrap64>(),
        exact_arith::<Wrap64>(),
        exact_order::<Wrap64>(),
{
}

} // verus!
