//! A small error type, and integer division that reports its failure with it.

use vstd::prelude::*;
use vstd::string::StringExecFns;

verus! {

/// An error with its message.
#[derive(Debug)]
pub enum MyError {
    InvalidInput(String),
    NetworkError(String),
    UnknownError(String),
}

/// The quotient of `a` by a non-zero `b`, rounded toward zero.
pub open spec fn quotient_toward_zero(a: int, b: int) -> int {
    if a >= 0 && b > 0 {
        a / b
    } else if a >= 0 && b < 0 {
        -(a / (-b))
    } else if a < 0 && b > 0 {
        -((-a) / b)
    } else {
        (-a) / (-b)
    }
}

impl MyError {
    /// The text of the error: what kind it is, then its message.
    pub fn message(&self) -> (text: String)
        ensures
            text@ == match *self {
                MyError::InvalidInput(m) => "Invalid input: "@ + m@,
                MyError::NetworkError(m) => "Network error: "@ + m@,
                MyError::UnknownError(m) => "Unknown error: "@ + m@,
            },
    {
        match self {
            MyError::InvalidInput(m) => String::from_str("Invalid input: ").concat(m.as_str()),
            MyError::NetworkError(m) => String::from_str("Network error: ").concat(m.as_str()),
            MyError::UnknownError(m) => String::from_str("Unknown error: ").concat(m.as_str()),
        }
    }
}

/// Divides `a` by `b`, rounding toward zero. Division by zero is refused.
pub fn divide(a: i32, b: i32) -> (r: Result<i32, MyError>)
    requires
        !(a == i32::MIN && b == -1),
    ensures
        b == 0 ==> (r matches Err(MyError::InvalidInput(m)) && m@ == "Cannot divide by zero"@),
        b != 0 ==> r is Ok && r->Ok_0 == quotient_toward_zero(a as int, b as int),
{
    if b == 0 {
        Err(MyError::InvalidInput(String::from_str("Cannot divide by zero")))
    } else {
        let x: i64 = a as i64;
        let y: i64 = b as i64;
        let q: i64 = if x >= 0 && y > 0 {
            x / y
        } else if x >= 0 {
            -(x / (-y))
        } else if y > 0 {
            -((-x) / y)
        } else {
            (-x) / (-y)
        };
        proof {
            let m: int = if x >= 0 { x as int } else { -(x as int) };
            let d: int = if y > 0 { y as int } else { -(y as int) };
            vstd::arithmetic::div_mod::lemma_div_pos_is_pos(m, d);
            vstd::arithmetic::div_mod::lemma_div_is_ordered_by_denominator(m, 1, d);
            vstd::arithmetic::div_mod::lemma_div_basics(m);
            if d > 1 && m > 0 {
                vstd::arithmetic::div_mod::lemma_div_decreases(m, d);
            }
        }
        Ok(q as i32)
    }
}

} // verus!
