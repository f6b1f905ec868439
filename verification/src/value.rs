//! Run-time values and the arithmetic on them.

use crate::binary64::{
    int_of_real, int_to_real, real_add, real_difference, real_div, real_mul, real_of_int,
    real_product, real_quotient, real_sub, real_sum, real_to_int,
};
use crate::error::Error;
use vstd::prelude::*;

verus! {

/// The type that a variable is declared with.
#[derive(Clone, Copy, Debug, PartialEq, Eq, Structural)]
pub enum DeclaredType {
    Integer,
    Real,
}

/// A run-time value: a 64-bit integer, or a real, held as the bit pattern of
/// its binary64 value.
#[derive(Clone, Copy, Debug, PartialEq, Eq, Structural)]
pub enum VarType {
    Integer(i64),
    Real(u64),
}

impl VarType {
    /// The type that a value is of.
    pub open spec fn spec_type_of(&self) -> DeclaredType {
        match *self {
            VarType::Integer(_) => DeclaredType::Integer,
            VarType::Real(_) => DeclaredType::Real,
        }
    }

    /// The type that a value is of.
    #[verifier::when_used_as_spec(spec_type_of)]
    pub fn type_of(&self) -> (r: DeclaredType)
        ensures
            r == self.spec_type_of(),
    {
        match self {
            VarType::Integer(_) => DeclaredType::Integer,
            VarType::Real(_) => DeclaredType::Real,
        }
    }

    /// Whether two values are of the same type, whatever they hold.
    pub fn same_type(&self, other: &VarType) -> (r: bool)
        ensures
            r == (self.spec_type_of() == other.spec_type_of()),
    {
        match (self, other) {
            (VarType::Integer(_), VarType::Integer(_)) => true,
            (VarType::Real(_), VarType::Real(_)) => true,
            _ => false,
        }
    }

    /// The value as an integer: a real loses its fraction, toward zero.
    pub open spec fn spec_to_integer(&self) -> i64 {
        match *self {
            VarType::Integer(n) => n,
            VarType::Real(bits) => int_of_real(bits),
        }
    }

    /// The value as an integer: a real loses its fraction, toward zero.
    #[verifier::when_used_as_spec(spec_to_integer)]
    pub fn to_integer(&self) -> (r: i64)
        ensures
            r == self.spec_to_integer(),
    {
        match self {
            VarType::Integer(n) => *n,
            VarType::Real(bits) => real_to_int(*bits),
        }
    }

    /// The value as a real, in bits: an integer becomes the nearest real.
    pub open spec fn spec_to_real(&self) -> u64 {
        match *self {
            VarType::Integer(n) => real_of_int(n),
            VarType::Real(bits) => bits,
        }
    }

    /// The value as a real, in bits: an integer becomes the nearest real.
    #[verifier::when_used_as_spec(spec_to_real)]
    pub fn to_real(&self) -> (r: u64)
        ensures
            r == self.spec_to_real(),
    {
        match self {
            VarType::Integer(n) => int_to_real(*n),
            VarType::Real(bits) => *bits,
        }
    }
}

/// Whether a character is one of the four binary operators.
pub open spec fn is_operator(op: char) -> bool {
    op == '+' || op == '-' || op == '*' || op == '/'
}

/// The quotient of two integers, rounded toward zero.
pub open spec fn truncated_quotient(a: int, b: int) -> int {
    if a >= 0 && b > 0 {
        a / b
    } else if a < 0 && b < 0 {
        (-a) / (-b)
    } else if a < 0 {
        -((-a) / b)
    } else {
        -(a / (-b))
    }
}

/// The exact result of an operator on two integers. `/` is the quotient
/// rounded toward zero.
pub open spec fn exact(op: char, a: int, b: int) -> int {
    if op == '+' {
        a + b
    } else if op == '-' {
        a - b
    } else if op == '*' {
        a * b
    } else {
        truncated_quotient(a, b)
    }
}

/// An operator on two 64-bit integers: the exact result, or the reason why
/// there is none. Dividing by zero fails; so does a result beyond 64 bits.
pub open spec fn integer_operation(op: char, a: i64, b: i64) -> Result<i64, Error> {
    if op == '/' && b == 0 {
        Err(Error::DivisionByZero)
    } else if i64::MIN <= exact(op, a as int, b as int) <= i64::MAX {
        Ok(exact(op, a as int, b as int) as i64)
    } else {
        Err(Error::Overflow)
    }
}

/// An operator on two reals, in bits.
pub open spec fn real_arithmetic(op: char, a: u64, b: u64) -> u64 {
    if op == '+' {
        real_sum(a, b)
    } else if op == '-' {
        real_difference(a, b)
    } else if op == '*' {
        real_product(a, b)
    } else {
        real_quotient(a, b)
    }
}

/// Applies one of `+ - * /` to two integers.
pub fn operation(op: char, a: i64, b: i64) -> (r: Result<i64, Error>)
    requires
        is_operator(op),
    ensures
        r == integer_operation(op, a, b),
{
    if op == '/' && b == 0 {
        return Err(Error::DivisionByZero);
    }
    let result = if op == '+' {
        a.checked_add(b)
    } else if op == '-' {
        a.checked_sub(b)
    } else if op == '*' {
        a.checked_mul(b)
    } else {
        a.checked_div(b)
    };
    match result {
        Some(value) => Ok(value),
        None => Err(Error::Overflow),
    }
}

/// Applies one of `+ - * /` to two reals, in bits.
pub fn real_operation(op: char, a: u64, b: u64) -> (r: u64)
    requires
        is_operator(op),
    ensures
        r == real_arithmetic(op, a, b),
{
    if op == '+' {
        real_add(a, b)
    } else if op == '-' {
        real_sub(a, b)
    } else if op == '*' {
        real_mul(a, b)
    } else {
        real_div(a, b)
    }
}

} // verus!
